use vstd::prelude::*;
use crate::maze::{cells_in_row, cells_upto, in_class, lemma_upto_prefix, walkable_kind, Cell, CellClass, Maze};

verus! {

/// Column of the cell from which every spawn point of a generated level is
/// reachable.
pub const START_X: usize = 1;

/// Row of the cell from which every spawn point of a generated level is
/// reachable.
pub const START_Y: usize = 1;

/// Two cells that share an edge.
pub open spec fn adjacent(a: (int, int), b: (int, int)) -> bool {
    ||| (a.0 == b.0 && (a.1 - b.1 == 1 || b.1 - a.1 == 1))
    ||| (a.1 == b.1 && (a.0 - b.0 == 1 || b.0 - a.0 == 1))
}

/// A non-empty sequence of walkable cells, each adjacent to the next.
pub open spec fn is_walk(m: &Maze, p: Seq<(int, int)>) -> bool {
    &&& p.len() > 0
    &&& forall|i: int| 0 <= i < p.len() ==> m.walkable_at((#[trigger] p[i]).0, p[i].1)
    &&& forall|i: int| 0 <= i < p.len() - 1 ==> adjacent(#[trigger] p[i], p[i + 1])
}

/// A walk over walkable cells leads from `from` to `to`.
pub open spec fn reachable(m: &Maze, from: (int, int), to: (int, int)) -> bool {
    exists|p: Seq<(int, int)>| is_walk(m, p) && p[0] == from && p.last() == to
}

/// Every spawn point of the level can be reached from the start cell.
pub open spec fn spawns_reachable(m: &Maze) -> bool {
    forall|x: int, y: int|
        m.in_bounds(x, y) && #[trigger] m.cell(x, y) == Cell::SpawnPoint ==> reachable(
            m,
            (START_X as int, START_Y as int),
            (x, y),
        )
}

/// `cur` is `orig` with some walls turned into paths and nothing else changed.
pub open spec fn carved_from(cur: &Maze, orig: &Maze) -> bool {
    &&& cur.wf()
    &&& cur.same_meta(orig)
    &&& forall|x: int, y: int|
        #![trigger cur.cell(x, y)]
        cur.in_bounds(x, y) ==> cur.cell(x, y) == orig.cell(x, y) || (orig.cell(x, y)
            == Cell::Wall && cur.cell(x, y) == Cell::Path)
}

pub open spec fn dist(a: int, b: int) -> int {
    if a >= b {
        a - b
    } else {
        b - a
    }
}

/// Number of cells on the route from the start cell to `(sx, sy)`.
pub open spec fn route_len(sx: int, sy: int) -> int {
    dist(sx, START_X as int) + dist(sy, START_Y as int) + 1
}

/// The `i`-th cell of the route from the start cell to `(sx, sy)`: along the
/// start row to column `sx`, then along column `sx` to row `sy`.
pub open spec fn route_at(sx: int, sy: int, i: int) -> (int, int) {
    let n1 = dist(sx, START_X as int);
    if i <= n1 {
        (
            if sx >= START_X {
                START_X + i
            } else {
                START_X - i
            },
            START_Y as int,
        )
    } else {
        (
            sx,
            if sy >= START_Y {
                START_Y + (i - n1)
            } else {
                START_Y - (i - n1)
            },
        )
    }
}

pub open spec fn between(v: int, a: int, b: int) -> bool {
    (a <= v <= b) || (b <= v <= a)
}

/// `(x, y)` lies on the route from the start cell to `(sx, sy)`.
pub open spec fn on_route(sx: int, sy: int, x: int, y: int) -> bool {
    ||| (y == START_Y && between(x, START_X as int, sx))
    ||| (x == sx && between(y, START_Y as int, sy))
}

/// `(x, y)` is the start cell or lies on the route to a spawn point of `m`.
pub open spec fn routed(m: &Maze, x: int, y: int) -> bool {
    ||| (x == START_X && y == START_Y)
    ||| exists|sx: int, sy: int|
        m.in_bounds(sx, sy) && m.cell(sx, sy) == Cell::SpawnPoint && #[trigger] on_route(
            sx,
            sy,
            x,
            y,
        )
}

/// The cell `(x, y)` of `m` once the routes to its spawn points are carved.
pub open spec fn routed_cell(m: &Maze, x: int, y: int) -> Cell {
    if m.cell(x, y) == Cell::Wall && routed(m, x, y) {
        Cell::Path
    } else {
        m.cell(x, y)
    }
}

proof fn lemma_route_at_on_route(sx: int, sy: int, k: int)
    requires
        0 <= k < route_len(sx, sy),
    ensures
        on_route(sx, sy, route_at(sx, sy, k).0, route_at(sx, sy, k).1),
{
}

proof fn lemma_on_route_index(sx: int, sy: int, x: int, y: int) -> (k: int)
    requires
        on_route(sx, sy, x, y),
    ensures
        0 <= k < route_len(sx, sy),
        route_at(sx, sy, k) == (x, y),
{
    if y == START_Y && between(x, START_X as int, sx) {
        dist(x, START_X as int)
    } else {
        dist(sx, START_X as int) + dist(y, START_Y as int)
    }
}

pub open spec fn route(sx: int, sy: int) -> Seq<(int, int)> {
    Seq::new(route_len(sx, sy) as nat, |i: int| route_at(sx, sy, i))
}

proof fn lemma_carved_trans(a: &Maze, b: &Maze, c: &Maze)
    requires
        carved_from(b, a),
        carved_from(c, b),
    ensures
        carved_from(c, a),
{
    assert forall|x: int, y: int| #[trigger] c.in_bounds(x, y) implies c.cell(x, y) == a.cell(x, y)
        || (a.cell(x, y) == Cell::Wall && c.cell(x, y) == Cell::Path) by {
        assert(b.cell(x, y) == a.cell(x, y) || (a.cell(x, y) == Cell::Wall && b.cell(x, y)
            == Cell::Path));
    }
}

proof fn lemma_route_steps(sx: int, sy: int, i: int)
    requires
        0 <= i < route_len(sx, sy) - 1,
    ensures
        adjacent(route_at(sx, sy, i), route_at(sx, sy, i + 1)),
{
}

proof fn lemma_reach_self(m: &Maze, a: (int, int))
    requires
        m.walkable_at(a.0, a.1),
    ensures
        reachable(m, a, a),
{
    let p = seq![a];
    assert(is_walk(m, p));
    assert(is_walk(m, p) && p[0] == a && p.last() == a);
}

/// A walk stays a walk when no walkable cell is lost.
proof fn lemma_reach_mono(m1: &Maze, m2: &Maze, a: (int, int), b: (int, int))
    requires
        reachable(m1, a, b),
        forall|i: int, j: int| #[trigger] m1.walkable_at(i, j) ==> m2.walkable_at(i, j),
    ensures
        reachable(m2, a, b),
{
    let p = choose|p: Seq<(int, int)>| is_walk(m1, p) && p[0] == a && p.last() == b;
    assert(is_walk(m2, p));
}

/// A walk extends to a walkable neighbour of its end.
proof fn lemma_reach_step(m: &Maze, a: (int, int), b: (int, int), c: (int, int))
    requires
        reachable(m, a, b),
        adjacent(b, c),
        m.walkable_at(c.0, c.1),
    ensures
        reachable(m, a, c),
{
    let p = choose|p: Seq<(int, int)>| is_walk(m, p) && p[0] == a && p.last() == b;
    let q = p.push(c);
    assert forall|i: int| 0 <= i < q.len() - 1 implies adjacent(#[trigger] q[i], q[i + 1]) by {
        if i < p.len() - 1 {
            assert(q[i] == p[i] && q[i + 1] == p[i + 1]);
        }
    }
    assert forall|i: int| 0 <= i < q.len() implies m.walkable_at((#[trigger] q[i]).0, q[i].1) by {
        if i < p.len() {
            assert(q[i] == p[i]);
        }
    }
    assert(is_walk(m, q));
    assert(q[0] == a && q.last() == c);
    assert(is_walk(m, q) && q[0] == a && q.last() == c);
}

proof fn lemma_reach_reverse(m: &Maze, a: (int, int), b: (int, int))
    requires
        reachable(m, a, b),
    ensures
        reachable(m, b, a),
{
    let p = choose|p: Seq<(int, int)>| is_walk(m, p) && p[0] == a && p.last() == b;
    let r = Seq::new(p.len(), |i: int| p[p.len() - 1 - i]);
    assert forall|i: int| 0 <= i < r.len() - 1 implies adjacent(#[trigger] r[i], r[i + 1]) by {
        let k = p.len() - 2 - i;
        assert(adjacent(p[k], p[k + 1]));
    }
    assert forall|i: int| 0 <= i < r.len() implies m.walkable_at((#[trigger] r[i]).0, r[i].1) by {
        assert(m.walkable_at(p[p.len() - 1 - i].0, p[p.len() - 1 - i].1));
    }
    assert(is_walk(m, r) && r[0] == b && r.last() == a);
}

proof fn lemma_reach_join(m: &Maze, a: (int, int), b: (int, int), c: (int, int))
    requires
        reachable(m, a, b),
        reachable(m, b, c),
    ensures
        reachable(m, a, c),
{
    let p = choose|p: Seq<(int, int)>| is_walk(m, p) && p[0] == a && p.last() == b;
    let q = choose|q: Seq<(int, int)>| is_walk(m, q) && q[0] == b && q.last() == c;
    let t = q.subrange(1, q.len() as int);
    let w = p + t;
    assert forall|i: int| 0 <= i < w.len() implies m.walkable_at((#[trigger] w[i]).0, w[i].1) by {
        if i < p.len() {
            assert(w[i] == p[i]);
        } else {
            assert(w[i] == q[i - p.len() + 1]);
        }
    }
    assert forall|i: int| 0 <= i < w.len() - 1 implies adjacent(#[trigger] w[i], w[i + 1]) by {
        if i < p.len() - 1 {
            assert(w[i] == p[i] && w[i + 1] == p[i + 1]);
        } else if i == p.len() - 1 {
            assert(w[i] == b && w[i + 1] == q[1]);
            assert(adjacent(q[0], q[1]));
        } else {
            assert(w[i] == q[i - p.len() + 1] && w[i + 1] == q[i - p.len() + 2]);
        }
    }
    if q.len() == 1 {
        assert(w =~= p);
    }
    assert(is_walk(m, w) && w[0] == a && w.last() == c);
}

/// Walking along row `q` from a reachable `(p, q)` reaches `(p2, q)` when
/// the cells between are walkable.
proof fn lemma_reach_line_x(m: &Maze, o: (int, int), p: int, q: int, p2: int)
    requires
        reachable(m, o, (p, q)),
        forall|t: int| between(t, p, p2) ==> #[trigger] m.walkable_at(t, q),
    ensures
        reachable(m, o, (p2, q)),
    decreases dist(p, p2),
{
    if p2 != p {
        let prev = if p2 > p {
            p2 - 1
        } else {
            p2 + 1
        };
        assert forall|t: int| between(t, p, prev) implies #[trigger] m.walkable_at(t, q) by {
            assert(between(t, p, p2));
        }
        lemma_reach_line_x(m, o, p, q, prev);
        assert(between(p2, p, p2));
        lemma_reach_step(m, o, (prev, q), (p2, q));
    }
}

/// Walking along column `p` from a reachable `(p, q)` reaches `(p, q2)` when
/// the cells between are walkable.
proof fn lemma_reach_line_y(m: &Maze, o: (int, int), p: int, q: int, q2: int)
    requires
        reachable(m, o, (p, q)),
        forall|t: int| between(t, q, q2) ==> #[trigger] m.walkable_at(p, t),
    ensures
        reachable(m, o, (p, q2)),
    decreases dist(q, q2),
{
    if q2 != q {
        let prev = if q2 > q {
            q2 - 1
        } else {
            q2 + 1
        };
        assert forall|t: int| between(t, q, prev) implies #[trigger] m.walkable_at(p, t) by {
            assert(between(t, q, q2));
        }
        lemma_reach_line_y(m, o, p, q, prev);
        assert(between(q2, q, q2));
        lemma_reach_step(m, o, (p, prev), (p, q2));
    }
}

/// In a level whose spawn points are all reachable from the start cell, any
/// spawn point can be reached from any other.
pub proof fn lemma_spawns_connected(m: &Maze, a: (int, int), b: (int, int))
    requires
        spawns_reachable(m),
        m.in_bounds(a.0, a.1),
        m.cell(a.0, a.1) == Cell::SpawnPoint,
        m.in_bounds(b.0, b.1),
        m.cell(b.0, b.1) == Cell::SpawnPoint,
    ensures
        reachable(m, a, b),
{
    let s = (START_X as int, START_Y as int);
    assert(reachable(m, s, a));
    assert(reachable(m, s, b));
    lemma_reach_reverse(m, s, a);
    lemma_reach_join(m, a, s, b);
}

/// A route whose cells are all walkable is a walk from the start cell to its end.
proof fn lemma_route_is_walk(m: &Maze, sx: int, sy: int)
    requires
        forall|i: int|
            0 <= i < route_len(sx, sy) ==> m.walkable_at(
                (#[trigger] route_at(sx, sy, i)).0,
                route_at(sx, sy, i).1,
            ),
    ensures
        reachable(m, (START_X as int, START_Y as int), (sx, sy)),
{
    let p = route(sx, sy);
    assert forall|i: int| 0 <= i < p.len() implies m.walkable_at((#[trigger] p[i]).0, p[i].1) by {
        assert(p[i] == route_at(sx, sy, i));
    }
    assert forall|i: int| 0 <= i < p.len() - 1 implies adjacent(#[trigger] p[i], p[i + 1]) by {
        lemma_route_steps(sx, sy, i);
    }
    assert(p[0] == route_at(sx, sy, 0));
    assert(p.last() == route_at(sx, sy, route_len(sx, sy) - 1));
    assert(is_walk(m, p));
}

impl Maze {
    /// Turns the cell into a path if it is a wall; leaves it as it is otherwise.
    fn carve(&mut self, x: usize, y: usize)
        requires
            old(self).wf(),
            old(self).in_bounds(x as int, y as int),
        ensures
            carved_from(final(self), old(self)),
            final(self).walkable_at(x as int, y as int),
            forall|i: int, j: int|
                #![trigger final(self).cell(i, j)]
                old(self).in_bounds(i, j) && (i != x || j != y) ==> final(self).cell(i, j)
                    == old(self).cell(i, j),
    {
        if self.get(x, y) == Cell::Wall {
            self.set_path(x, y);
        }
    }

    /// Carves the route from the start cell to `(sx, sy)`.
    fn carve_route(&mut self, sx: usize, sy: usize)
        requires
            old(self).wf(),
            old(self).width >= 2,
            old(self).height >= 2,
            old(self).width + old(self).height <= usize::MAX,
            old(self).in_bounds(sx as int, sy as int),
        ensures
            carved_from(final(self), old(self)),
            forall|i: int|
                0 <= i < route_len(sx as int, sy as int) ==> final(self).walkable_at(
                    (#[trigger] route_at(sx as int, sy as int, i)).0,
                    route_at(sx as int, sy as int, i).1,
                ),
            forall|i: int, j: int|
                #![trigger final(self).cell(i, j)]
                final(self).in_bounds(i, j) && final(self).cell(i, j) != old(self).cell(i, j)
                    ==> on_route(sx as int, sy as int, i, j),
    {
        let ghost start = *self;
        let n1: usize = if sx >= START_X {
            sx - START_X
        } else {
            START_X - sx
        };
        let n2: usize = if sy >= START_Y {
            sy - START_Y
        } else {
            START_Y - sy
        };
        let len: usize = n1 + n2 + 1;
        let mut i: usize = 0;
        while i < len
            invariant
                self.wf(),
                start.wf(),
                carved_from(self, &start),
                start.in_bounds(sx as int, sy as int),
                start.width >= 2,
                start.height >= 2,
                n1 == dist(sx as int, START_X as int),
                n2 == dist(sy as int, START_Y as int),
                len == route_len(sx as int, sy as int),
                i <= len,
                forall|k: int|
                    0 <= k < i ==> self.walkable_at(
                        (#[trigger] route_at(sx as int, sy as int, k)).0,
                        route_at(sx as int, sy as int, k).1,
                    ),
                forall|a: int, b: int|
                    #![trigger self.cell(a, b)]
                    self.in_bounds(a, b) && self.cell(a, b) != start.cell(a, b) ==> on_route(
                        sx as int,
                        sy as int,
                        a,
                        b,
                    ),
            decreases len - i,
        {
            let (cx, cy): (usize, usize) = if i <= n1 {
                (
                    if sx >= START_X {
                        START_X + i
                    } else {
                        START_X - i
                    },
                    START_Y,
                )
            } else {
                (
                    sx,
                    if sy >= START_Y {
                        START_Y + (i - n1)
                    } else {
                        START_Y - (i - n1)
                    },
                )
            };
            assert((cx as int, cy as int) == route_at(sx as int, sy as int, i as int));
            proof {
                lemma_route_at_on_route(sx as int, sy as int, i as int);
            }
            let ghost before = *self;
            self.carve(cx, cy);
            proof {
                lemma_carved_trans(&start, &before, self);
            }
            i += 1;
        }
    }

    /// Carves, from the start cell to every spawn point, a route of walkable
    /// cells. Only walls change, and only into paths.
    pub fn connect_spawns(&mut self)
        requires
            old(self).wf(),
            old(self).width >= 2,
            old(self).height >= 2,
            old(self).width + old(self).height <= usize::MAX,
        ensures
            carved_from(final(self), old(self)),
            final(self).walkable_at(START_X as int, START_Y as int),
            spawns_reachable(final(self)),
            forall|x: int, y: int|
                #![trigger final(self).cell(x, y)]
                final(self).in_bounds(x, y) ==> final(self).cell(x, y) == routed_cell(
                    old(self),
                    x,
                    y,
                ),
    {
        let ghost orig = *self;
        self.carve(START_X, START_Y);
        let mut y: usize = 0;
        while y < self.height
            invariant
                orig.wf(),
                orig.width >= 2,
                orig.height >= 2,
                orig.width + orig.height <= usize::MAX,
                carved_from(self, &orig),
                self.walkable_at(START_X as int, START_Y as int),
                forall|a: int, b: int|
                    #![trigger self.cell(a, b)]
                    self.in_bounds(a, b) && self.cell(a, b) != orig.cell(a, b) ==> routed(
                        &orig,
                        a,
                        b,
                    ),
                y <= self.height,
                forall|sx: int, sy: int|
                    #![trigger orig.cell(sx, sy)]
                    orig.in_bounds(sx, sy) && sy < y && orig.cell(sx, sy) == Cell::SpawnPoint
                        ==> forall|i: int|
                        0 <= i < route_len(sx, sy) ==> self.walkable_at(
                            (#[trigger] route_at(sx, sy, i)).0,
                            route_at(sx, sy, i).1,
                        ),
            decreases self.height - y,
        {
            let mut x: usize = 0;
            while x < self.width
                invariant
                    orig.wf(),
                    orig.width >= 2,
                    orig.height >= 2,
                    orig.width + orig.height <= usize::MAX,
                    carved_from(self, &orig),
                    self.walkable_at(START_X as int, START_Y as int),
                    forall|a: int, b: int|
                        #![trigger self.cell(a, b)]
                        self.in_bounds(a, b) && self.cell(a, b) != orig.cell(a, b) ==> routed(
                            &orig,
                            a,
                            b,
                        ),
                    y < self.height,
                    x <= self.width,
                    forall|sx: int, sy: int|
                        #![trigger orig.cell(sx, sy)]
                        orig.in_bounds(sx, sy) && (sy < y || (sy == y && sx < x)) && orig.cell(
                            sx,
                            sy,
                        ) == Cell::SpawnPoint ==> forall|i: int|
                            0 <= i < route_len(sx, sy) ==> self.walkable_at(
                                (#[trigger] route_at(sx, sy, i)).0,
                                route_at(sx, sy, i).1,
                            ),
                decreases self.width - x,
            {
                if self.get(x, y) == Cell::SpawnPoint {
                    let ghost before = *self;
                    assert(self.cell(x as int, y as int) == Cell::SpawnPoint);
                    self.carve_route(x, y);
                    proof {
                        lemma_carved_trans(&orig, &before, self);
                        assert(orig.cell(x as int, y as int) == Cell::SpawnPoint);
                        assert forall|a: int, b: int|
                            #![trigger self.cell(a, b)]
                            self.in_bounds(a, b) && self.cell(a, b) != orig.cell(a, b) implies routed(
                            &orig,
                            a,
                            b,
                        ) by {
                            if self.cell(a, b) != before.cell(a, b) {
                                assert(on_route(x as int, y as int, a, b));
                            }
                        }
                    }
                }
                x += 1;
            }
            y += 1;
        }
        proof {
            assert forall|x: int, y: int|
                self.in_bounds(x, y) && #[trigger] self.cell(x, y) == Cell::SpawnPoint implies reachable(
                self,
                (START_X as int, START_Y as int),
                (x, y),
            ) by {
                assert(orig.cell(x, y) == Cell::SpawnPoint);
                lemma_route_is_walk(self, x, y);
            }
            assert forall|x: int, y: int|
                #![trigger self.cell(x, y)]
                self.in_bounds(x, y) implies self.cell(x, y) == routed_cell(&orig, x, y) by {
                if orig.cell(x, y) == Cell::Wall && routed(&orig, x, y) && !(x == START_X && y
                    == START_Y) {
                    let (sx, sy) = choose|sx: int, sy: int|
                        orig.in_bounds(sx, sy) && orig.cell(sx, sy) == Cell::SpawnPoint
                            && #[trigger] on_route(sx, sy, x, y);
                    let k = lemma_on_route_index(sx, sy, x, y);
                    assert(self.walkable_at(route_at(sx, sy, k).0, route_at(sx, sy, k).1));
                }
            }
        }
    }
}

/// Id, width, height and player limit of a level.
pub open spec fn shaped(m: &Maze, id: u32, w: usize, h: usize, max_players: u8) -> bool {
    &&& m.wf()
    &&& m.level_id == id
    &&& m.width == w
    &&& m.height == h
    &&& m.max_players == max_players
}

/// Id, width, height and player limit of the level that `load_level(level)`
/// gives; an unknown id gives the first level.
pub open spec fn level_shape(level: u8) -> (u32, usize, usize, u8) {
    if level == 2 {
        (2, 25, 25, 10)
    } else if level == 3 {
        (3, 20, 20, 12)
    } else if level == 4 {
        (4, 28, 28, 10)
    } else if level == 5 {
        (5, 25, 25, 15)
    } else {
        (1, 20, 20, 8)
    }
}

/// Spawn points of the arena: corners and mid-sides.
pub open spec fn arena_spawn(x: int, y: int) -> bool {
    ||| ((x == 2 || x == 10 || x == 17) && (y == 2 || y == 17))
    ||| (y == 10 && (x == 2 || x == 17))
}

/// Cover of the arena: a hollow square block at the centre.
pub open spec fn arena_cover(x: int, y: int) -> bool {
    ||| (8 <= x <= 11 && (y == 8 || y == 11))
    ||| ((x == 8 || x == 11) && (y == 9 || y == 10))
}

/// Paths of the arena: the ring one cell in from the edge and the open centre.
pub open spec fn arena_path(x: int, y: int) -> bool {
    ||| ((y == 1 || y == 18) && 1 <= x < 19)
    ||| ((x == 1 || x == 18) && 1 <= y < 19)
    ||| (3 <= x < 17 && 3 <= y < 17)
}

/// The cell at `(x, y)` of the arena, before routes are carved.
pub open spec fn arena_cell(x: int, y: int) -> Cell {
    if arena_spawn(x, y) {
        Cell::SpawnPoint
    } else if arena_cover(x, y) {
        Cell::Cover
    } else if arena_path(x, y) {
        Cell::Path
    } else {
        Cell::Wall
    }
}

pub open spec fn corridor_line(v: int) -> bool {
    v == 5 || v == 10 || v == 15 || v == 20
}

/// Rows or columns covered by the rooms at the corridor crossings.
pub open spec fn room_band(v: int) -> bool {
    4 <= v <= 5 || 9 <= v <= 10 || 14 <= v <= 15 || 19 <= v <= 20
}

pub open spec fn corridors_spawn(x: int, y: int) -> bool {
    ||| ((x == 3 || x == 21) && (y == 3 || y == 9 || y == 15 || y == 21))
    ||| ((y == 3 || y == 21) && (x == 9 || x == 15))
}

pub open spec fn corridors_cover(x: int, y: int) -> bool {
    (x == 5 || x == 15) && (y == 5 || y == 15)
}

pub open spec fn corridors_path(x: int, y: int) -> bool {
    ||| (corridor_line(y) && 1 <= x < 24)
    ||| (corridor_line(x) && 1 <= y < 24)
    ||| (room_band(x) && room_band(y))
}

/// The cell at `(x, y)` of the corridors level, before routes are carved.
pub open spec fn corridors_cell(x: int, y: int) -> Cell {
    if corridors_spawn(x, y) {
        Cell::SpawnPoint
    } else if corridors_cover(x, y) {
        Cell::Cover
    } else if corridors_path(x, y) {
        Cell::Path
    } else {
        Cell::Wall
    }
}

/// Row `y` of the zigzag: every third row is full, the others alternate
/// between the left and the right half.
pub open spec fn zigzag_row(x: int, y: int) -> bool {
    ||| (y % 3 == 0 && 2 <= x < 18)
    ||| (y % 3 == 1 && 2 <= x < 10)
    ||| (y % 3 == 2 && 10 <= x < 18)
}

pub open spec fn zigzag_path(x: int, y: int) -> bool {
    ||| x == 0 || x == 19 || y == 0 || y == 19
    ||| (2 <= y < 18 && zigzag_row(x, y))
    ||| ((x == 5 || x == 15) && 1 <= y < 19)
}

/// Where the zigzag places cover, if the cell is walkable.
pub open spec fn zigzag_cover_site(x: int, y: int) -> bool {
    ||| ((x == 3 || x == 16) && (y == 3 || y == 16))
    ||| (x == 10 && y == 10)
    ||| ((x == 7 || x == 12) && (y == 7 || y == 12))
}

/// Where the zigzag places spawn points, if the cell is walkable.
pub open spec fn zigzag_spawn_site(x: int, y: int) -> bool {
    ||| ((x == 2 || x == 17) && (y == 2 || y == 17))
    ||| (x == 10 && (y == 2 || y == 17))
    ||| (y == 10 && (x == 2 || x == 17))
    ||| ((x == 5 || x == 14) && (y == 5 || y == 14))
}

/// The cell at `(x, y)` of the zigzag level, before routes are carved.
pub open spec fn zigzag_cell(x: int, y: int) -> Cell {
    if zigzag_spawn_site(x, y) && zigzag_path(x, y) {
        Cell::SpawnPoint
    } else if zigzag_cover_site(x, y) && zigzag_path(x, y) {
        Cell::Cover
    } else if zigzag_path(x, y) {
        Cell::Path
    } else {
        Cell::Wall
    }
}

/// Columns and rows 3, 7, ..., 23.
pub open spec fn lattice_site(v: int) -> bool {
    3 <= v <= 23 && v % 4 == 3
}

/// The number of walkable cells before `(x, y)` in row-major order.
pub open spec fn walk_rank(m: &Maze, x: int, y: int) -> int {
    (cells_upto(m, y, CellClass::Walkable) + cells_in_row(m, y, x, CellClass::Walkable)).len() as int
}

/// The first `n` cells of row `y` are walkable, so all are counted.
proof fn lemma_full_row(m: &Maze, y: int, n: int)
    requires
        0 <= n,
        forall|i: int| 0 <= i < n ==> m.walkable_at(i, y),
    ensures
        cells_in_row(m, y, n, CellClass::Walkable).len() == n,
    decreases n,
{
    if n > 0 {
        lemma_full_row(m, y, n - 1);
        assert(m.walkable_at(n - 1, y));
    }
}

proof fn lemma_same_walkable_row(m1: &Maze, m2: &Maze, y: int, n: int)
    requires
        forall|i: int| 0 <= i < n ==> walkable_kind(m1.cell(i, y)) == walkable_kind(m2.cell(i, y)),
    ensures
        cells_in_row(m1, y, n, CellClass::Walkable) == cells_in_row(m2, y, n, CellClass::Walkable),
    decreases n,
{
    if n > 0 {
        lemma_same_walkable_row(m1, m2, y, n - 1);
    }
}

proof fn lemma_same_walkable_upto(m1: &Maze, m2: &Maze, rows: int)
    requires
        m1.width == m2.width,
        forall|i: int, j: int|
            0 <= i < m1.width && 0 <= j < rows ==> walkable_kind(m1.cell(i, j)) == walkable_kind(
                m2.cell(i, j),
            ),
    ensures
        cells_upto(m1, rows, CellClass::Walkable) == cells_upto(m2, rows, CellClass::Walkable),
    decreases rows,
{
    if rows > 0 {
        lemma_same_walkable_upto(m1, m2, rows - 1);
        lemma_same_walkable_row(m1, m2, rows - 1, m1.width as int);
    }
}

/// Two grids of one size that agree on which cells are walkable rank their
/// cells alike.
proof fn lemma_same_walkable_rank(m1: &Maze, m2: &Maze)
    requires
        m1.wf(),
        m2.wf(),
        m1.width == m2.width,
        m1.height == m2.height,
        forall|i: int, j: int|
            #![trigger m2.cell(i, j)]
            m1.in_bounds(i, j) ==> walkable_kind(m1.cell(i, j)) == walkable_kind(m2.cell(i, j)),
    ensures
        forall|x: int, y: int|
            #![trigger walk_rank(m2, x, y)]
            m1.in_bounds(x, y) ==> walk_rank(m1, x, y) == walk_rank(m2, x, y),
{
    assert forall|x: int, y: int| m1.in_bounds(x, y) implies #[trigger] walk_rank(m2, x, y)
        == walk_rank(m1, x, y) by {
        lemma_same_walkable_upto(m1, m2, y);
        lemma_same_walkable_row(m1, m2, y, x);
    }
}

pub open spec fn death_border(x: int, y: int) -> bool {
    x == 0 || x == 24 || y == 0 || y == 24
}

/// Rows and columns 2, 6, ..., 22 of the corridor lattice.
pub open spec fn grid_line(v: int) -> bool {
    2 <= v <= 22 && v % 4 == 2
}

/// Positions 1 to 23 along a lattice line, with a gap every fourth cell.
pub open spec fn gap_line(v: int) -> bool {
    1 <= v < 24 && v % 4 != 0
}

pub open spec fn death_lattice(x: int, y: int) -> bool {
    (grid_line(y) && gap_line(x)) || (grid_line(x) && gap_line(y))
}

pub open spec fn death_diagonal(x: int, y: int) -> bool {
    (x == y && 2 <= x <= 21) || (x + y == 24 && 2 <= y <= 21)
}

/// Crossings 4, 8, ..., 20 of the dead-end pattern.
pub open spec fn knot(v: int) -> bool {
    4 <= v <= 20 && v % 4 == 0
}

/// The knot centre `(cx, cy)` comes before `(kx, ky)` in the order of carving.
pub open spec fn knot_before(cx: int, cy: int, kx: int, ky: int) -> bool {
    cx < kx || (cx == kx && cy < ky)
}

/// `(x, y)` is a dead end next to a knot carved before `(kx, ky)`: beside it
/// horizontally when the knot's coordinate sum is divisible by 3, vertically
/// when the sum leaves 1.
pub open spec fn knot_arm_before(x: int, y: int, kx: int, ky: int) -> bool {
    ||| (knot(y) && knot(x - 1) && (x - 1 + y) % 3 == 0 && knot_before(x - 1, y, kx, ky))
    ||| (knot(y) && knot(x + 1) && (x + 1 + y) % 3 == 0 && knot_before(x + 1, y, kx, ky))
    ||| (knot(x) && knot(y - 1) && (x + y - 1) % 3 == 1 && knot_before(x, y - 1, kx, ky))
    ||| (knot(x) && knot(y + 1) && (x + y + 1) % 3 == 1 && knot_before(x, y + 1, kx, ky))
}

/// The stubs: a cell with its right and lower neighbour.
pub open spec fn stub_origin(x: int, y: int) -> bool {
    ||| (x == 3 && (y == 3 || y == 13))
    ||| (x == 5 && (y == 6 || y == 16))
    ||| (x == 7 && (y == 9 || y == 19))
    ||| (x == 9 && y == 12)
    ||| (x == 11 && (y == 15 || y == 5))
    ||| (x == 13 && y == 18)
    ||| (x == 15 && y == 21)
    ||| (x == 17 && y == 4)
    ||| (x == 19 && y == 7)
    ||| (x == 21 && y == 10)
}

/// The corner spirals: arms of six cells along rows and columns 3 and 21.
pub open spec fn spiral(x: int, y: int) -> bool {
    ||| ((y == 3 || y == 21) && (3 <= x <= 8 || 16 <= x <= 21))
    ||| ((x == 3 || x == 21) && (3 <= y <= 8 || 16 <= y <= 21))
}

pub open spec fn death_path(x: int, y: int) -> bool {
    ||| death_border(x, y)
    ||| death_lattice(x, y)
    ||| death_diagonal(x, y)
    ||| knot_arm_before(x, y, 24, 0)
    ||| stub_origin(x, y) || stub_origin(x - 1, y) || stub_origin(x, y - 1)
    ||| spiral(x, y)
}

/// Where the death maze places cover, if the cell is walkable.
pub open spec fn death_cover_site(x: int, y: int) -> bool {
    (lattice_site(x) && lattice_site(y)) || death_strategic_site(x, y)
}

/// The strategic cover sites of the death maze: the centre, the corners, the
/// mid-sides and the inner ring.
pub open spec fn death_strategic_site(x: int, y: int) -> bool {
    ||| (12 <= x <= 14 && (y == 12 || y == 15))
    ||| ((x == 11 || x == 15) && (y == 13 || y == 14))
    ||| ((x == 5 || x == 19) && (y == 5 || y == 19 || 11 <= y <= 13))
    ||| ((x == 6 || x == 18) && (y == 6 || y == 18))
    ||| (11 <= x <= 13 && (y == 5 || y == 19))
    ||| ((x == 10 || x == 14) && (y == 10 || y == 14))
    ||| ((x == 11 || x == 13) && (y == 11 || y == 13))
}

/// The cell at `(x, y)` of the death maze, before routes are carved: the
/// first fifteen cells of the top row are its spawn points.
pub open spec fn death_cell(x: int, y: int) -> Cell {
    if y == 0 && x < 15 {
        Cell::SpawnPoint
    } else if death_cover_site(x, y) && death_path(x, y) {
        Cell::Cover
    } else if death_path(x, y) {
        Cell::Path
    } else {
        Cell::Wall
    }
}

/// `post` is `pre` with the cell `(x, y)` set to `c` when `cond` holds, and
/// `pre` unchanged otherwise.
pub open spec fn set_if(pre: &Maze, post: &Maze, x: int, y: int, cond: bool, c: Cell) -> bool {
    &&& post.wf()
    &&& post.same_meta(pre)
    &&& forall|i: int, j: int|
        #![trigger post.cell(i, j)]
        post.in_bounds(i, j) ==> post.cell(i, j) == if i == x && j == y && cond {
            c
        } else {
            pre.cell(i, j)
        }
}

impl Maze {
    /// Sets every cell of the rectangle `[x0, x1) x [y0, y1)` to a path.
    fn fill_path(&mut self, x0: usize, x1: usize, y0: usize, y1: usize)
        requires
            old(self).wf(),
        ensures
            final(self).wf(),
            final(self).same_meta(old(self)),
            forall|i: int, j: int|
                #![trigger final(self).cell(i, j)]
                final(self).in_bounds(i, j) ==> final(self).cell(i, j) == if x0 <= i < x1 && y0
                    <= j < y1 {
                    Cell::Path
                } else {
                    old(self).cell(i, j)
                },
    {
        let ghost start = *self;
        let mut x: usize = x0;
        while x < x1
            invariant
                self.wf(),
                self.same_meta(&start),
                x0 <= x,
                x <= x1 || x == x0,
                forall|i: int, j: int|
                    #![trigger self.cell(i, j)]
                    self.in_bounds(i, j) ==> self.cell(i, j) == if x0 <= i < x && y0 <= j < y1 {
                        Cell::Path
                    } else {
                        start.cell(i, j)
                    },
            decreases x1 - x,
        {
            let mut y: usize = y0;
            while y < y1
                invariant
                    self.wf(),
                    self.same_meta(&start),
                    x0 <= x < x1,
                    y0 <= y,
                    y <= y1 || y == y0,
                    forall|i: int, j: int|
                        #![trigger self.cell(i, j)]
                        self.in_bounds(i, j) ==> self.cell(i, j) == if (x0 <= i < x && y0 <= j
                            < y1) || (i == x && y0 <= j < y) {
                            Cell::Path
                        } else {
                            start.cell(i, j)
                        },
                decreases y1 - y,
            {
                self.set_path(x, y);
                y += 1;
            }
            x += 1;
        }
    }

    /// Turns the cell into cover if it is walkable.
    fn cover_if_walkable(&mut self, x: usize, y: usize)
        requires
            old(self).wf(),
        ensures
            set_if(
                old(self),
                final(self),
                x as int,
                y as int,
                old(self).walkable_at(x as int, y as int),
                Cell::Cover,
            ),
    {
        if self.is_walkable(x, y) {
            self.set_cover(x, y);
        }
    }

    /// Turns the cell into a spawn point if it is walkable.
    fn spawn_if_walkable(&mut self, x: usize, y: usize)
        requires
            old(self).wf(),
        ensures
            set_if(
                old(self),
                final(self),
                x as int,
                y as int,
                old(self).walkable_at(x as int, y as int),
                Cell::SpawnPoint,
            ),
    {
        if self.is_walkable(x, y) {
            self.set_spawn_point(x, y);
        }
    }

    /// Sets to cover each walkable cell whose column and row are both in
    /// 3, 7, ..., 23.
    fn cover_lattice(&mut self)
        requires
            old(self).wf(),
        ensures
            final(self).wf(),
            final(self).same_meta(old(self)),
            forall|i: int, j: int|
                #![trigger final(self).cell(i, j)]
                final(self).in_bounds(i, j) ==> final(self).cell(i, j) == if lattice_site(i)
                    && lattice_site(j) && walkable_kind(old(self).cell(i, j)) {
                    Cell::Cover
                } else {
                    old(self).cell(i, j)
                },
    {
        let ghost start = *self;
        let mut i: usize = 0;
        while i < 6
            invariant
                self.wf(),
                self.same_meta(&start),
                i <= 6,
                forall|a: int, b: int|
                    #![trigger self.cell(a, b)]
                    self.in_bounds(a, b) ==> self.cell(a, b) == if lattice_site(a) && a < 3 + 4
                        * i && lattice_site(b) && walkable_kind(start.cell(a, b)) {
                        Cell::Cover
                    } else {
                        start.cell(a, b)
                    },
            decreases 6 - i,
        {
            let x = 3 + 4 * i;
            let mut j: usize = 0;
            while j < 6
                invariant
                    self.wf(),
                    self.same_meta(&start),
                    i < 6,
                    x == 3 + 4 * i,
                    j <= 6,
                    forall|a: int, b: int|
                        #![trigger self.cell(a, b)]
                        self.in_bounds(a, b) ==> self.cell(a, b) == if ((lattice_site(a) && a < x)
                            || (a == x && b < 3 + 4 * j)) && lattice_site(b) && walkable_kind(
                            start.cell(a, b),
                        ) {
                            Cell::Cover
                        } else {
                            start.cell(a, b)
                        },
                decreases 6 - j,
            {
                self.cover_if_walkable(x, 3 + 4 * j);
                j += 1;
            }
            i += 1;
        }
    }

    /// Turns the first `limit` walkable cells, in row-major order, into spawn
    /// points.
    fn spawn_on_first_walkable(&mut self, limit: usize)
        requires
            old(self).wf(),
        ensures
            final(self).wf(),
            final(self).same_meta(old(self)),
            forall|i: int, j: int|
                #![trigger final(self).cell(i, j)]
                final(self).in_bounds(i, j) ==> final(self).cell(i, j) == if old(self).walkable_at(
                    i,
                    j,
                ) && walk_rank(old(self), i, j) < limit {
                    Cell::SpawnPoint
                } else {
                    old(self).cell(i, j)
                },
    {
        let ghost start = *self;
        let mut spawn_count: usize = 0;
        let mut y: usize = 0;
        while y < self.height
            invariant
                self.wf(),
                self.same_meta(&start),
                start.wf(),
                y <= self.height,
                spawn_count <= limit,
                spawn_count <= walk_rank(&start, 0, y as int),
                spawn_count == limit || spawn_count == walk_rank(&start, 0, y as int),
                walk_rank(&start, 0, y as int) >= limit ==> spawn_count == limit,
                forall|a: int, b: int|
                    #![trigger self.cell(a, b)]
                    self.in_bounds(a, b) ==> self.cell(a, b) == if b < y && start.walkable_at(a, b)
                        && walk_rank(&start, a, b) < limit {
                        Cell::SpawnPoint
                    } else {
                        start.cell(a, b)
                    },
            decreases self.height - y,
        {
            let mut x: usize = 0;
            while x < self.width
                invariant
                    self.wf(),
                    self.same_meta(&start),
                    start.wf(),
                    y < self.height,
                    x <= self.width,
                    spawn_count <= limit,
                    spawn_count <= walk_rank(&start, x as int, y as int),
                    spawn_count == limit || spawn_count == walk_rank(&start, x as int, y as int),
                    walk_rank(&start, x as int, y as int) >= limit ==> spawn_count == limit,
                    forall|a: int, b: int|
                        #![trigger self.cell(a, b)]
                        self.in_bounds(a, b) ==> self.cell(a, b) == if (b < y || (b == y && a < x))
                            && start.walkable_at(a, b) && walk_rank(&start, a, b) < limit {
                            Cell::SpawnPoint
                        } else {
                            start.cell(a, b)
                        },
                decreases self.width - x,
            {
                proof {
                    let r = cells_in_row(&start, y as int, x as int, CellClass::Walkable);
                    assert(cells_in_row(&start, y as int, x + 1, CellClass::Walkable) == if in_class(
                        start.cell(x as int, y as int),
                        CellClass::Walkable,
                    ) {
                        r.push((x, y))
                    } else {
                        r
                    });
                }
                if self.is_walkable(x, y) && spawn_count < limit {
                    self.set_spawn_point(x, y);
                    spawn_count += 1;
                }
                x += 1;
            }
            proof {
                assert(walk_rank(&start, self.width as int, y as int) == walk_rank(
                    &start,
                    0,
                    y + 1,
                ));
            }
            y += 1;
        }
    }

    /// Arena: an outer ring, an open central area with a block of cover, and
    /// spawn points at the corners and mid-sides.
    fn level1_arena() -> (maze: Maze)
        ensures
            shaped(&maze, 1, 20, 20, 8),
            maze.name@ == "The Arena"@,
            maze.description@ == "Close-quarters combat arena"@,
            forall|x: int, y: int|
                maze.in_bounds(x, y) ==> #[trigger] maze.cell(x, y) == arena_cell(x, y),
    {
        let mut maze = Maze::new(
            20,
            20,
            1,
            "The Arena".to_string(),
            "Close-quarters combat arena".to_string(),
            8,
        );
        maze.fill_path(1, 19, 1, 2);
        maze.fill_path(1, 19, 18, 19);
        maze.fill_path(1, 2, 1, 19);
        maze.fill_path(18, 19, 1, 19);
        maze.fill_path(3, 17, 3, 17);
        maze.set_cover(8, 8);
        maze.set_cover(9, 8);
        maze.set_cover(10, 8);
        maze.set_cover(11, 8);
        maze.set_cover(8, 9);
        maze.set_cover(11, 9);
        maze.set_cover(8, 10);
        maze.set_cover(11, 10);
        maze.set_cover(8, 11);
        maze.set_cover(9, 11);
        maze.set_cover(10, 11);
        maze.set_cover(11, 11);
        maze.set_spawn_point(2, 2);
        maze.set_spawn_point(17, 2);
        maze.set_spawn_point(2, 17);
        maze.set_spawn_point(17, 17);
        maze.set_spawn_point(10, 2);
        maze.set_spawn_point(10, 17);
        maze.set_spawn_point(2, 10);
        maze.set_spawn_point(17, 10);
        maze
    }

    /// Corridors: a lattice of corridors with small rooms at the crossings.
    fn level2_corridors() -> (maze: Maze)
        ensures
            shaped(&maze, 2, 25, 25, 10),
            maze.name@ == "The Corridors"@,
            maze.description@ == "Tactical corridor combat"@,
            forall|x: int, y: int|
                maze.in_bounds(x, y) ==> #[trigger] maze.cell(x, y) == corridors_cell(x, y),
    {
        let mut maze = Maze::new(
            25,
            25,
            2,
            "The Corridors".to_string(),
            "Tactical corridor combat".to_string(),
            10,
        );
        maze.fill_path(1, 24, 5, 6);
        maze.fill_path(1, 24, 10, 11);
        maze.fill_path(1, 24, 15, 16);
        maze.fill_path(1, 24, 20, 21);
        maze.fill_path(5, 6, 1, 24);
        maze.fill_path(10, 11, 1, 24);
        maze.fill_path(15, 16, 1, 24);
        maze.fill_path(20, 21, 1, 24);
        let mut j: usize = 0;
        while j < 4
            invariant
                shaped(&maze, 2, 25, 25, 10),
                maze.name@ == "The Corridors"@,
                maze.description@ == "Tactical corridor combat"@,
                j <= 4,
                forall|x: int, y: int|
                    #![trigger maze.cell(x, y)]
                    maze.in_bounds(x, y) ==> maze.cell(x, y) == if corridor_line(y) && 1 <= x < 24
                        || corridor_line(x) && 1 <= y < 24 || room_band(x) && room_band(y) && y
                        < 4 + 5 * j {
                        Cell::Path
                    } else {
                        Cell::Wall
                    },
            decreases 4 - j,
        {
            let ry = 4 + 5 * j;
            maze.fill_path(4, 6, ry, ry + 2);
            maze.fill_path(9, 11, ry, ry + 2);
            maze.fill_path(14, 16, ry, ry + 2);
            maze.fill_path(19, 21, ry, ry + 2);
            j += 1;
        }
        maze.set_cover(5, 5);
        maze.set_cover(5, 15);
        maze.set_cover(15, 5);
        maze.set_cover(15, 15);
        maze.set_spawn_point(3, 3);
        maze.set_spawn_point(21, 3);
        maze.set_spawn_point(3, 21);
        maze.set_spawn_point(21, 21);
        maze.set_spawn_point(9, 3);
        maze.set_spawn_point(15, 3);
        maze.set_spawn_point(9, 21);
        maze.set_spawn_point(15, 21);
        maze.set_spawn_point(3, 9);
        maze.set_spawn_point(21, 9);
        maze.set_spawn_point(3, 15);
        maze.set_spawn_point(21, 15);
        maze
    }

    /// Zigzag: a border path, alternating full and half rows, two connecting
    /// columns; cover and spawn points only where the layout is walkable.
    fn level3_complex() -> (maze: Maze)
        ensures
            shaped(&maze, 3, 20, 20, 12),
            maze.name@ == "The Zigzag"@,
            maze.description@ == "Compact zigzag maze with tight corridors"@,
            forall|x: int, y: int|
                maze.in_bounds(x, y) ==> #[trigger] maze.cell(x, y) == zigzag_cell(x, y),
    {
        let mut maze = Maze::new(
            20,
            20,
            3,
            "The Zigzag".to_string(),
            "Compact zigzag maze with tight corridors".to_string(),
            12,
        );
        maze.fill_path(0, 20, 0, 1);
        maze.fill_path(0, 20, 19, 20);
        maze.fill_path(0, 1, 0, 20);
        maze.fill_path(19, 20, 0, 20);
        let mut y: usize = 2;
        while y < 18
            invariant
                shaped(&maze, 3, 20, 20, 12),
                maze.name@ == "The Zigzag"@,
                maze.description@ == "Compact zigzag maze with tight corridors"@,
                2 <= y <= 18,
                forall|a: int, b: int|
                    #![trigger maze.cell(a, b)]
                    maze.in_bounds(a, b) ==> maze.cell(a, b) == if a == 0 || a == 19 || b == 0
                        || b == 19 || (2 <= b < y && zigzag_row(a, b)) {
                        Cell::Path
                    } else {
                        Cell::Wall
                    },
            decreases 18 - y,
        {
            if y % 3 == 0 {
                maze.fill_path(2, 18, y, y + 1);
            } else if y % 3 == 1 {
                maze.fill_path(2, 10, y, y + 1);
            } else {
                maze.fill_path(10, 18, y, y + 1);
            }
            y += 1;
        }
        maze.fill_path(5, 6, 1, 19);
        maze.fill_path(15, 16, 1, 19);
        maze.cover_if_walkable(3, 3);
        maze.cover_if_walkable(16, 3);
        maze.cover_if_walkable(3, 16);
        maze.cover_if_walkable(16, 16);
        maze.cover_if_walkable(10, 10);
        maze.cover_if_walkable(7, 7);
        maze.cover_if_walkable(12, 7);
        maze.cover_if_walkable(7, 12);
        maze.cover_if_walkable(12, 12);
        maze.spawn_if_walkable(2, 2);
        maze.spawn_if_walkable(17, 2);
        maze.spawn_if_walkable(2, 17);
        maze.spawn_if_walkable(17, 17);
        maze.spawn_if_walkable(10, 2);
        maze.spawn_if_walkable(10, 17);
        maze.spawn_if_walkable(2, 10);
        maze.spawn_if_walkable(17, 10);
        maze.spawn_if_walkable(5, 5);
        maze.spawn_if_walkable(14, 5);
        maze.spawn_if_walkable(5, 14);
        maze.spawn_if_walkable(14, 14);
        maze
    }
}

impl Maze {
    /// The paths of the death maze: a border, a gapped corridor lattice, two
    /// diagonals, dead ends at the crossings, scattered stubs and corner
    /// spirals.
    #[verifier::rlimit(60)]
    fn level5_paths() -> (maze: Maze)
        ensures
            shaped(&maze, 5, 25, 25, 15),
            maze.name@ == "The Brutal Death Maze"@,
            maze.description@ == "Brutal death maze - extremely complex and challenging"@,
            forall|x: int, y: int|
                maze.in_bounds(x, y) ==> #[trigger] maze.cell(x, y) == if death_path(x, y) {
                    Cell::Path
                } else {
                    Cell::Wall
                },
    {
        let mut maze = Maze::new(
            25,
            25,
            5,
            "The Brutal Death Maze".to_string(),
            "Brutal death maze - extremely complex and challenging".to_string(),
            15,
        );
        maze.fill_path(0, 25, 0, 1);
        maze.fill_path(0, 25, 24, 25);
        maze.fill_path(0, 1, 0, 25);
        maze.fill_path(24, 25, 0, 25);
        let mut k: usize = 0;
        while k < 6
            invariant
                shaped(&maze, 5, 25, 25, 15),
                maze.name@ == "The Brutal Death Maze"@,
                maze.description@ == "Brutal death maze - extremely complex and challenging"@,
                k <= 6,
                forall|a: int, b: int|
                    #![trigger maze.cell(a, b)]
                    maze.in_bounds(a, b) ==> maze.cell(a, b) == if death_border(a, b) || (
                    grid_line(b) && b < 2 + 4 * k && gap_line(a)) {
                        Cell::Path
                    } else {
                        Cell::Wall
                    },
            decreases 6 - k,
        {
            let line = 2 + 4 * k;
            let mut t: usize = 1;
            while t < 24
                invariant
                    shaped(&maze, 5, 25, 25, 15),
                    maze.name@ == "The Brutal Death Maze"@,
                    maze.description@ == "Brutal death maze - extremely complex and challenging"@,
                    k < 6,
                    line == 2 + 4 * k,
                    1 <= t <= 24,
                    forall|a: int, b: int|
                        #![trigger maze.cell(a, b)]
                        maze.in_bounds(a, b) ==> maze.cell(a, b) == if death_border(a, b) || (
                        grid_line(b) && b < line && gap_line(a)) || (b == line && a < t && gap_line(
                            a,
                        )) {
                            Cell::Path
                        } else {
                            Cell::Wall
                        },
                decreases 24 - t,
            {
                if t % 4 != 0 {
                    maze.set_path(t, line);
                }
                t += 1;
            }
            k += 1;
        }
        let mut k: usize = 0;
        while k < 6
            invariant
                shaped(&maze, 5, 25, 25, 15),
                maze.name@ == "The Brutal Death Maze"@,
                maze.description@ == "Brutal death maze - extremely complex and challenging"@,
                k <= 6,
                forall|a: int, b: int|
                    #![trigger maze.cell(a, b)]
                    maze.in_bounds(a, b) ==> maze.cell(a, b) == if death_border(a, b) || (
                    grid_line(b) && gap_line(a)) || (grid_line(a) && a < 2 + 4 * k && gap_line(b)) {
                        Cell::Path
                    } else {
                        Cell::Wall
                    },
            decreases 6 - k,
        {
            let line = 2 + 4 * k;
            let mut t: usize = 1;
            while t < 24
                invariant
                    shaped(&maze, 5, 25, 25, 15),
                    maze.name@ == "The Brutal Death Maze"@,
                    maze.description@ == "Brutal death maze - extremely complex and challenging"@,
                    k < 6,
                    line == 2 + 4 * k,
                    1 <= t <= 24,
                    forall|a: int, b: int|
                        #![trigger maze.cell(a, b)]
                        maze.in_bounds(a, b) ==> maze.cell(a, b) == if death_border(a, b) || (
                        grid_line(b) && gap_line(a)) || (grid_line(a) && a < line && gap_line(b))
                            || (a == line && b < t && gap_line(b)) {
                            Cell::Path
                        } else {
                            Cell::Wall
                        },
                decreases 24 - t,
            {
                if t % 4 != 0 {
                    maze.set_path(line, t);
                }
                t += 1;
            }
            k += 1;
        }
        let mut i: usize = 0;
        while i < 20
            invariant
                shaped(&maze, 5, 25, 25, 15),
                maze.name@ == "The Brutal Death Maze"@,
                maze.description@ == "Brutal death maze - extremely complex and challenging"@,
                i <= 20,
                forall|a: int, b: int|
                    #![trigger maze.cell(a, b)]
                    maze.in_bounds(a, b) ==> maze.cell(a, b) == if death_border(a, b)
                        || death_lattice(a, b) || (a == b && 2 <= a < 2 + i) {
                        Cell::Path
                    } else {
                        Cell::Wall
                    },
            decreases 20 - i,
        {
            let (x, y) = (2 + i, 2 + i);
            if x < 23 && y < 23 {
                maze.set_path(x, y);
            }
            i += 1;
        }
        let mut i: usize = 0;
        while i < 20
            invariant
                shaped(&maze, 5, 25, 25, 15),
                maze.name@ == "The Brutal Death Maze"@,
                maze.description@ == "Brutal death maze - extremely complex and challenging"@,
                i <= 20,
                forall|a: int, b: int|
                    #![trigger maze.cell(a, b)]
                    maze.in_bounds(a, b) ==> maze.cell(a, b) == if death_border(a, b)
                        || death_lattice(a, b) || (a == b && 2 <= a <= 21) || (a + b == 24 && 2
                        <= b < 2 + i) {
                        Cell::Path
                    } else {
                        Cell::Wall
                    },
            decreases 20 - i,
        {
            let (x, y) = (22 - i, 2 + i);
            if x > 1 && y < 23 {
                maze.set_path(x, y);
            }
            i += 1;
        }
        let mut i: usize = 0;
        while i < 5
            invariant
                shaped(&maze, 5, 25, 25, 15),
                maze.name@ == "The Brutal Death Maze"@,
                maze.description@ == "Brutal death maze - extremely complex and challenging"@,
                i <= 5,
                forall|a: int, b: int|
                    #![trigger maze.cell(a, b)]
                    maze.in_bounds(a, b) ==> maze.cell(a, b) == if death_border(a, b)
                        || death_lattice(a, b) || death_diagonal(a, b) || knot_arm_before(
                        a,
                        b,
                        4 + 4 * i,
                        0,
                    ) {
                        Cell::Path
                    } else {
                        Cell::Wall
                    },
            decreases 5 - i,
        {
            let mut j: usize = 0;
            while j < 5
                invariant
                    shaped(&maze, 5, 25, 25, 15),
                    maze.name@ == "The Brutal Death Maze"@,
                    maze.description@ == "Brutal death maze - extremely complex and challenging"@,
                    i < 5,
                    j <= 5,
                    forall|a: int, b: int|
                        #![trigger maze.cell(a, b)]
                        maze.in_bounds(a, b) ==> maze.cell(a, b) == if death_border(a, b)
                            || death_lattice(a, b) || death_diagonal(a, b) || knot_arm_before(
                            a,
                            b,
                            4 + 4 * i,
                            4 + 4 * j,
                        ) {
                            Cell::Path
                        } else {
                            Cell::Wall
                        },
                decreases 5 - j,
            {
                let (x, y) = (4 + 4 * i, 4 + 4 * j);
                if (x + y) % 3 == 0 {
                    maze.set_path(x + 1, y);
                    maze.set_path(x - 1, y);
                } else if (x + y) % 3 == 1 {
                    maze.set_path(x, y + 1);
                    maze.set_path(x, y - 1);
                }
                j += 1;
            }
            proof {
                assert forall|a: int, b: int| #[trigger] knot_arm_before(a, b, 4 + 4 * i, 24)
                    == knot_arm_before(a, b, 4 + 4 * (i + 1), 0) by {}
            }
            i += 1;
        }
        maze.fill_path(3, 5, 3, 4);
        maze.set_path(3, 4);
        maze.fill_path(5, 7, 6, 7);
        maze.set_path(5, 7);
        maze.fill_path(7, 9, 9, 10);
        maze.set_path(7, 10);
        maze.fill_path(9, 11, 12, 13);
        maze.set_path(9, 13);
        maze.fill_path(11, 13, 15, 16);
        maze.set_path(11, 16);
        maze.fill_path(13, 15, 18, 19);
        maze.set_path(13, 19);
        maze.fill_path(15, 17, 21, 22);
        maze.set_path(15, 22);
        maze.fill_path(17, 19, 4, 5);
        maze.set_path(17, 5);
        maze.fill_path(19, 21, 7, 8);
        maze.set_path(19, 8);
        maze.fill_path(21, 23, 10, 11);
        maze.set_path(21, 11);
        maze.fill_path(3, 5, 13, 14);
        maze.set_path(3, 14);
        maze.fill_path(5, 7, 16, 17);
        maze.set_path(5, 17);
        maze.fill_path(7, 9, 19, 20);
        maze.set_path(7, 20);
        maze.fill_path(11, 13, 5, 6);
        maze.set_path(11, 6);
        maze.fill_path(3, 9, 3, 4);
        maze.fill_path(16, 22, 3, 4);
        maze.fill_path(3, 9, 21, 22);
        maze.fill_path(16, 22, 21, 22);
        maze.fill_path(3, 4, 3, 9);
        maze.fill_path(3, 4, 16, 22);
        maze.fill_path(21, 22, 3, 9);
        maze.fill_path(21, 22, 16, 22);
        maze
    }

    /// Sets to cover each walkable strategic site of the death maze.
    fn death_strategic_cover(&mut self)
        requires
            old(self).wf(),
        ensures
            final(self).wf(),
            final(self).same_meta(old(self)),
            forall|i: int, j: int|
                #![trigger final(self).cell(i, j)]
                final(self).in_bounds(i, j) ==> final(self).cell(i, j) == if death_strategic_site(
                    i,
                    j,
                ) && walkable_kind(old(self).cell(i, j)) {
                    Cell::Cover
                } else {
                    old(self).cell(i, j)
                },
    {
        self.cover_if_walkable(12, 12);
        self.cover_if_walkable(13, 12);
        self.cover_if_walkable(14, 12);
        self.cover_if_walkable(11, 13);
        self.cover_if_walkable(15, 13);
        self.cover_if_walkable(11, 14);
        self.cover_if_walkable(15, 14);
        self.cover_if_walkable(12, 15);
        self.cover_if_walkable(13, 15);
        self.cover_if_walkable(14, 15);
        self.cover_if_walkable(5, 5);
        self.cover_if_walkable(19, 5);
        self.cover_if_walkable(5, 19);
        self.cover_if_walkable(19, 19);
        self.cover_if_walkable(6, 6);
        self.cover_if_walkable(18, 6);
        self.cover_if_walkable(6, 18);
        self.cover_if_walkable(18, 18);
        self.cover_if_walkable(12, 5);
        self.cover_if_walkable(12, 19);
        self.cover_if_walkable(5, 12);
        self.cover_if_walkable(19, 12);
        self.cover_if_walkable(11, 5);
        self.cover_if_walkable(13, 5);
        self.cover_if_walkable(11, 19);
        self.cover_if_walkable(13, 19);
        self.cover_if_walkable(5, 11);
        self.cover_if_walkable(5, 13);
        self.cover_if_walkable(19, 11);
        self.cover_if_walkable(19, 13);
        self.cover_if_walkable(10, 10);
        self.cover_if_walkable(14, 10);
        self.cover_if_walkable(10, 14);
        self.cover_if_walkable(14, 14);
        self.cover_if_walkable(11, 11);
        self.cover_if_walkable(13, 11);
        self.cover_if_walkable(11, 13);
        self.cover_if_walkable(13, 13);
    }

    /// Death maze: its paths, with cover on a lattice and at strategic cells
    /// where walkable, and spawn points on the first fifteen walkable cells.
    fn level5_open() -> (maze: Maze)
        ensures
            shaped(&maze, 5, 25, 25, 15),
            maze.name@ == "The Brutal Death Maze"@,
            maze.description@ == "Brutal death maze - extremely complex and challenging"@,
            forall|x: int, y: int|
                maze.in_bounds(x, y) ==> #[trigger] maze.cell(x, y) == death_cell(x, y),
    {
        let mut maze = Maze::level5_paths();
        maze.cover_lattice();
        maze.death_strategic_cover();
        let ghost covered = maze;
        proof {
            assert forall|x: int| 0 <= x <= 25 implies cells_in_row(
                &covered,
                0,
                x,
                CellClass::Walkable,
            ).len() == x by {
                lemma_full_row(&covered, 0, x);
            }
            assert forall|x: int, y: int| covered.in_bounds(x, y) implies walk_rank(&covered, x, y)
                == if y == 0 {
                x
            } else {
                walk_rank(&covered, x, y)
            } && (y >= 1 ==> walk_rank(&covered, x, y) >= 25) by {
                if y >= 1 {
                    lemma_upto_prefix(&covered, 1, y, CellClass::Walkable);
                    lemma_full_row(&covered, 0, 25);
                }
            }
        }
        maze.spawn_on_first_walkable(15);
        maze
    }

}

/// Number of walls in a row.
pub open spec fn walls_in(s: Seq<Cell>) -> nat
    decreases s.len(),
{
    if s.len() == 0 {
        0
    } else {
        walls_in(s.drop_last()) + if s.last() == Cell::Wall {
            1nat
        } else {
            0nat
        }
    }
}

/// Number of walls in the first `rows` rows.
pub open spec fn walls_upto(m: &Maze, rows: int) -> nat
    decreases rows,
{
    if rows <= 0 {
        0
    } else {
        walls_upto(m, rows - 1) + walls_in(m.grid@[rows - 1]@)
    }
}

pub open spec fn wall_count(m: &Maze) -> nat {
    walls_upto(m, m.height as int)
}

proof fn lemma_walls_update(s: Seq<Cell>, i: int, c: Cell)
    requires
        0 <= i < s.len(),
    ensures
        walls_in(s.update(i, c)) + (if s[i] == Cell::Wall {
            1int
        } else {
            0int
        }) == walls_in(s) + (if c == Cell::Wall {
            1int
        } else {
            0int
        }),
    decreases s.len(),
{
    let u = s.update(i, c);
    if i == s.len() - 1 {
        assert(u.drop_last() =~= s.drop_last());
    } else {
        assert(u.drop_last() =~= s.drop_last().update(i, c));
        lemma_walls_update(s.drop_last(), i, c);
    }
}

proof fn lemma_walls_upto_set(m1: &Maze, m2: &Maze, x: int, y: int, c: Cell, rows: int)
    requires
        m1.wf(),
        m2.is_set_from(m1, x, y, c),
        m1.in_bounds(x, y),
        0 <= rows <= m1.height,
    ensures
        walls_upto(m2, rows) + (if rows > y && m1.cell(x, y) == Cell::Wall {
            1int
        } else {
            0int
        }) == walls_upto(m1, rows) + (if rows > y && c == Cell::Wall {
            1int
        } else {
            0int
        }),
    decreases rows,
{
    if rows > 0 {
        let j = rows - 1;
        lemma_walls_upto_set(m1, m2, x, y, c, j);
        if j == y {
            assert(m2.grid@[j]@ =~= m1.grid@[j]@.update(x, c)) by {
                assert forall|i: int| 0 <= i < m1.width implies m2.grid@[j]@[i] == m1.grid@[j]@.update(x, c)[i] by {
                    assert(m2.cell(i, j) == m2.grid@[j]@[i]);
                }
            }
            lemma_walls_update(m1.grid@[j]@, x, c);
        } else {
            assert(m2.grid@[j]@ =~= m1.grid@[j]@) by {
                assert forall|i: int| 0 <= i < m1.width implies m2.grid@[j]@[i] == m1.grid@[j]@[i] by {
                    assert(m2.cell(i, j) == m2.grid@[j]@[i]);
                }
            }
        }
    }
}

/// Setting an in-bounds cell to a non-wall kind removes one wall if the cell
/// was a wall, and none otherwise.
proof fn lemma_wall_count_set(m1: &Maze, m2: &Maze, x: int, y: int, c: Cell)
    requires
        m1.wf(),
        m2.is_set_from(m1, x, y, c),
        m1.in_bounds(x, y),
        c != Cell::Wall,
    ensures
        wall_count(m2) + (if m1.cell(x, y) == Cell::Wall {
            1int
        } else {
            0int
        }) == wall_count(m1),
{
    lemma_walls_upto_set(m1, m2, x, y, c, m1.height as int);
}

/// A cell of the carving walk whose directions from `order[next]` on are
/// still to be tried.
struct CarveFrame {
    x: usize,
    y: usize,
    order: Vec<u8>,
    next: usize,
}

spec fn frame_weight(f: CarveFrame) -> nat {
    if f.next <= 4 {
        (5 - f.next) as nat
    } else {
        0
    }
}

spec fn stack_weight(s: Seq<CarveFrame>) -> nat
    decreases s.len(),
{
    if s.len() == 0 {
        0
    } else {
        stack_weight(s.drop_last()) + frame_weight(s.last())
    }
}

/// A cell off the border of the grid.
pub open spec fn interior(m: &Maze, x: int, y: int) -> bool {
    0 < x && x + 1 < m.width && 0 < y && y + 1 < m.height
}

/// Direction `d` appears in the carving order `order`.
pub open spec fn has_dir(order: Seq<u8>, d: int) -> bool {
    exists|t: int| 0 <= t < 4 && #[trigger] order[t] == d
}

spec fn frame_ok(m: &Maze, f: CarveFrame) -> bool {
    &&& 0 < f.x && f.x + 1 < m.width
    &&& 0 < f.y && f.y + 1 < m.height
    &&& f.order@.len() == 4
    &&& f.next <= 4
    &&& forall|i: int| 0 <= i < 4 ==> (#[trigger] f.order@[i]) < 4
    &&& forall|d: int| 0 <= d < 4 ==> #[trigger] has_dir(f.order@, d)
}

/// The cell two steps from `(x, y)` in direction `d` (up, right, down, left).
pub open spec fn two_steps(x: int, y: int, d: int) -> (int, int) {
    if d == 0 {
        (x, y - 2)
    } else if d == 1 {
        (x + 2, y)
    } else if d == 2 {
        (x, y + 2)
    } else {
        (x - 2, y)
    }
}

/// The cell `c` is on the border or outside, or is not a wall.
pub open spec fn open_or_off(m: &Maze, c: (int, int)) -> bool {
    !interior(m, c.0, c.1) || m.cell(c.0, c.1) != Cell::Wall
}

/// Every cell two steps from `(x, y)` is on the border or outside, or open.
pub open spec fn settled(m: &Maze, x: int, y: int) -> bool {
    &&& open_or_off(m, two_steps(x, y, 0))
    &&& open_or_off(m, two_steps(x, y, 1))
    &&& open_or_off(m, two_steps(x, y, 2))
    &&& open_or_off(m, two_steps(x, y, 3))
}

/// An interior cell with the parity of `(x, y)` in both coordinates.
pub open spec fn lattice_of(m: &Maze, x: int, y: int, i: int, j: int) -> bool {
    interior(m, i, j) && i % 2 == x % 2 && j % 2 == y % 2
}

spec fn on_stack(s: Seq<CarveFrame>, i: int, j: int) -> bool {
    exists|k: int| 0 <= k < s.len() && #[trigger] s[k].x == i && s[k].y == j
}

/// When every open lattice cell has all its lattice neighbours open and
/// `(x, y)` is open, every lattice cell is open.
#[verifier::spinoff_prover]
#[verifier::rlimit(40)]
proof fn lemma_lattice_cover(m: &Maze, x: int, y: int, i: int, j: int)
    requires
        lattice_of(m, x, y, x, y),
        m.cell(x, y) != Cell::Wall,
        forall|a: int, b: int|
            #![trigger m.cell(a, b)]
            lattice_of(m, x, y, a, b) && m.cell(a, b) != Cell::Wall ==> settled(m, a, b),
        lattice_of(m, x, y, i, j),
    ensures
        m.cell(i, j) != Cell::Wall,
    decreases dist(i, x) + dist(j, y),
{
    if i != x || j != y {
        let (a, b, d) = if i > x {
            (i - 2, j, 1int)
        } else if i < x {
            (i + 2, j, 3int)
        } else if j > y {
            (i, j - 2, 2int)
        } else {
            (i, j + 2, 0int)
        };
        assert(a % 2 == x % 2 && b % 2 == y % 2);
        assert(lattice_of(m, x, y, a, b));
        lemma_lattice_cover(m, x, y, a, b);
        assert(settled(m, a, b));
        assert(two_steps(a, b, d) == (i, j));
    }
}

/// Every cell open in `m0` is open in `m1`, a grid of the same size.
spec fn opens_grow(m0: &Maze, m1: &Maze) -> bool {
    &&& m0.width == m1.width
    &&& m0.height == m1.height
    &&& forall|i: int, j: int|
        #![trigger m1.cell(i, j)]
        m0.in_bounds(i, j) && m0.cell(i, j) != Cell::Wall ==> m1.cell(i, j) != Cell::Wall
}

/// Every direction a frame of `s` has tried leads off the interior or to an
/// open cell.
#[verifier::opaque]
spec fn tried_open(m: &Maze, s: Seq<CarveFrame>) -> bool {
    forall|k: int, t: int|
        #![trigger s[k].order@[t]]
        0 <= k < s.len() && 0 <= t < s[k].next ==> open_or_off(
            m,
            two_steps(s[k].x as int, s[k].y as int, s[k].order@[t] as int),
        )
}

/// Every open lattice cell is still on the stack or has all its lattice
/// neighbours open.
#[verifier::opaque]
spec fn cover_inv(start: &Maze, x: int, y: int, m: &Maze, s: Seq<CarveFrame>) -> bool {
    forall|i: int, j: int|
        #![trigger m.cell(i, j)]
        lattice_of(start, x, y, i, j) && m.cell(i, j) != Cell::Wall ==> on_stack(s, i, j)
            || settled(m, i, j)
}

/// Every cell of `m` that differs from `start` is reachable from `o`.
#[verifier::opaque]
spec fn changed_reachable(start: &Maze, m: &Maze, o: (int, int)) -> bool {
    forall|i: int, j: int|
        #![trigger m.cell(i, j)]
        m.in_bounds(i, j) && m.cell(i, j) != start.cell(i, j) ==> reachable(m, o, (i, j))
}

/// The cell of every frame of `s` is reachable from `o`.
#[verifier::opaque]
spec fn frames_reachable(m: &Maze, o: (int, int), s: Seq<CarveFrame>) -> bool {
    forall|k: int| 0 <= k < s.len() ==> reachable(m, o, ((#[trigger] s[k]).x as int, s[k].y as int))
}

/// Carving the wall `w` next to a reachable frame cell `f`, then the cell
/// `n` beyond it, keeps everything changed and every frame reachable, and
/// makes `n` reachable.
proof fn lemma_reach_carve(
    start: &Maze,
    m0: &Maze,
    m1: &Maze,
    m2: &Maze,
    o: (int, int),
    f: (int, int),
    w: (int, int),
    n: (int, int),
    s: Seq<CarveFrame>,
)
    requires
        m0.wf(),
        m1.is_set_from(m0, w.0, w.1, Cell::Path),
        m2.is_set_from(m1, n.0, n.1, Cell::Path),
        m0.in_bounds(w.0, w.1),
        m0.in_bounds(n.0, n.1),
        adjacent(f, w),
        adjacent(w, n),
        reachable(m0, o, f),
        changed_reachable(start, m0, o),
        frames_reachable(m0, o, s),
    ensures
        changed_reachable(start, m2, o),
        frames_reachable(m2, o, s),
        reachable(m2, o, n),
{
    reveal(changed_reachable);
    reveal(frames_reachable);
    assert forall|i: int, j: int| #[trigger] m0.walkable_at(i, j) implies m1.walkable_at(i, j) by {}
    assert forall|i: int, j: int| #[trigger] m1.walkable_at(i, j) implies m2.walkable_at(i, j) by {}
    lemma_reach_mono(m0, m1, o, f);
    lemma_reach_step(m1, o, f, w);
    lemma_reach_mono(m1, m2, o, w);
    lemma_reach_step(m2, o, w, n);
    assert forall|i: int, j: int|
        #![trigger m2.cell(i, j)]
        m2.in_bounds(i, j) && m2.cell(i, j) != start.cell(i, j) implies reachable(m2, o, (i, j)) by {
        if i == n.0 && j == n.1 {
        } else if i == w.0 && j == w.1 {
        } else {
            assert(m0.cell(i, j) == m2.cell(i, j));
            lemma_reach_mono(m0, m1, o, (i, j));
            lemma_reach_mono(m1, m2, o, (i, j));
        }
    }
    assert forall|k: int| 0 <= k < s.len() implies reachable(
        m2,
        o,
        ((#[trigger] s[k]).x as int, s[k].y as int),
    ) by {
        lemma_reach_mono(m0, m1, o, (s[k].x as int, s[k].y as int));
        lemma_reach_mono(m1, m2, o, (s[k].x as int, s[k].y as int));
    }
}

proof fn lemma_open_grow(m0: &Maze, m1: &Maze, c: (int, int))
    requires
        opens_grow(m0, m1),
        open_or_off(m0, c),
    ensures
        open_or_off(m1, c),
{
    if interior(m0, c.0, c.1) {
        assert(m0.in_bounds(c.0, c.1));
        assert(m1.cell(c.0, c.1) != Cell::Wall);
    }
}

proof fn lemma_settled_grow(m0: &Maze, m1: &Maze, i: int, j: int)
    requires
        opens_grow(m0, m1),
        settled(m0, i, j),
    ensures
        settled(m1, i, j),
{
    lemma_open_grow(m0, m1, two_steps(i, j, 0));
    lemma_open_grow(m0, m1, two_steps(i, j, 1));
    lemma_open_grow(m0, m1, two_steps(i, j, 2));
    lemma_open_grow(m0, m1, two_steps(i, j, 3));
}

proof fn lemma_tried_grow(m0: &Maze, m1: &Maze, s: Seq<CarveFrame>)
    requires
        opens_grow(m0, m1),
        tried_open(m0, s),
    ensures
        tried_open(m1, s),
{
    reveal(tried_open);
    assert forall|k: int, t: int|
        #![trigger s[k].order@[t]]
        0 <= k < s.len() && 0 <= t < s[k].next implies open_or_off(
        m1,
        two_steps(s[k].x as int, s[k].y as int, s[k].order@[t] as int),
    ) by {
        lemma_open_grow(m0, m1, two_steps(s[k].x as int, s[k].y as int, s[k].order@[t] as int));
    }
}

proof fn lemma_tried_drop(m: &Maze, s0: Seq<CarveFrame>)
    requires
        tried_open(m, s0),
        s0.len() > 0,
    ensures
        tried_open(m, s0.drop_last()),
{
    reveal(tried_open);
    let s1 = s0.drop_last();
    assert forall|k: int, t: int|
        #![trigger s1[k].order@[t]]
        0 <= k < s1.len() && 0 <= t < s1[k].next implies open_or_off(
        m,
        two_steps(s1[k].x as int, s1[k].y as int, s1[k].order@[t] as int),
    ) by {
        assert(s1[k] == s0[k]);
        assert(s0[k].order@[t] == s1[k].order@[t]);
    }
}

/// The top frame, having tried one more direction, goes back on the stack.
proof fn lemma_tried_advance(m: &Maze, s0: Seq<CarveFrame>, f2: CarveFrame)
    requires
        tried_open(m, s0),
        s0.len() > 0,
        f2.x == s0.last().x,
        f2.y == s0.last().y,
        f2.order == s0.last().order,
        f2.next == s0.last().next + 1,
        s0.last().next < s0.last().order@.len(),
        open_or_off(
            m,
            two_steps(
                s0.last().x as int,
                s0.last().y as int,
                s0.last().order@[s0.last().next as int] as int,
            ),
        ),
    ensures
        tried_open(m, s0.drop_last().push(f2)),
{
    reveal(tried_open);
    let s1 = s0.drop_last().push(f2);
    assert forall|k: int, t: int|
        #![trigger s1[k].order@[t]]
        0 <= k < s1.len() && 0 <= t < s1[k].next implies open_or_off(
        m,
        two_steps(s1[k].x as int, s1[k].y as int, s1[k].order@[t] as int),
    ) by {
        if k < s0.len() - 1 {
            assert(s1[k] == s0[k]);
            assert(s0[k].order@[t] == s1[k].order@[t]);
        } else if t < s0.last().next {
            assert(s0[k].order@[t] == s1[k].order@[t]);
        }
    }
}

proof fn lemma_tried_push_fresh(m: &Maze, s: Seq<CarveFrame>, f: CarveFrame)
    requires
        tried_open(m, s),
        f.next == 0,
    ensures
        tried_open(m, s.push(f)),
{
    reveal(tried_open);
    let s1 = s.push(f);
    assert forall|k: int, t: int|
        #![trigger s1[k].order@[t]]
        0 <= k < s1.len() && 0 <= t < s1[k].next implies open_or_off(
        m,
        two_steps(s1[k].x as int, s1[k].y as int, s1[k].order@[t] as int),
    ) by {
        assert(s1[k] == s[k]);
        assert(s[k].order@[t] == s1[k].order@[t]);
    }
}

/// A frame that has tried all four directions leaves its cell settled.
proof fn lemma_top_settled(m: &Maze, s0: Seq<CarveFrame>)
    requires
        tried_open(m, s0),
        s0.len() > 0,
        s0.last().next == 4,
        s0.last().order@.len() == 4,
        forall|d: int| 0 <= d < 4 ==> #[trigger] has_dir(s0.last().order@, d),
    ensures
        settled(m, s0.last().x as int, s0.last().y as int),
{
    reveal(tried_open);
    let f = s0.last();
    let k = s0.len() - 1;
    assert forall|d: int| 0 <= d < 4 implies open_or_off(
        m,
        #[trigger] two_steps(f.x as int, f.y as int, d),
    ) by {
        assert(has_dir(f.order@, d));
        let t = choose|t: int| 0 <= t < 4 && #[trigger] f.order@[t] == d;
        assert(s0[k].order@[t] == d);
    }
    assert(open_or_off(m, two_steps(f.x as int, f.y as int, 0)));
    assert(open_or_off(m, two_steps(f.x as int, f.y as int, 1)));
    assert(open_or_off(m, two_steps(f.x as int, f.y as int, 2)));
    assert(open_or_off(m, two_steps(f.x as int, f.y as int, 3)));
}

/// Dropping a settled top frame keeps the cover invariant.
proof fn lemma_cover_drop(start: &Maze, x: int, y: int, m: &Maze, s0: Seq<CarveFrame>)
    requires
        cover_inv(start, x, y, m, s0),
        s0.len() > 0,
        settled(m, s0.last().x as int, s0.last().y as int),
    ensures
        cover_inv(start, x, y, m, s0.drop_last()),
{
    reveal(cover_inv);
    let s1 = s0.drop_last();
    assert forall|i: int, j: int|
        #![trigger m.cell(i, j)]
        lattice_of(start, x, y, i, j) && m.cell(i, j) != Cell::Wall implies on_stack(s1, i, j)
        || settled(m, i, j) by {
        if on_stack(s0, i, j) && !settled(m, i, j) {
            let k = choose|k: int| 0 <= k < s0.len() && #[trigger] s0[k].x == i && s0[k].y == j;
            assert(k != s0.len() - 1);
            assert(s1[k].x == i && s1[k].y == j);
        }
    }
}

/// Opening cells keeps the cover invariant when every newly open lattice
/// cell is on the new stack, which keeps the old frames' cells in place.
proof fn lemma_cover_grow(
    start: &Maze,
    x: int,
    y: int,
    m0: &Maze,
    m1: &Maze,
    s0: Seq<CarveFrame>,
    s1: Seq<CarveFrame>,
)
    requires
        cover_inv(start, x, y, m0, s0),
        opens_grow(m0, m1),
        m0.width == start.width && m0.height == start.height,
        s0.len() <= s1.len(),
        forall|k: int| 0 <= k < s0.len() ==> (#[trigger] s1[k]).x == s0[k].x && s1[k].y == s0[k].y,
        forall|i: int, j: int|
            #![trigger m1.cell(i, j)]
            lattice_of(start, x, y, i, j) && m1.cell(i, j) != Cell::Wall && m0.cell(i, j)
                == Cell::Wall ==> on_stack(s1, i, j),
    ensures
        cover_inv(start, x, y, m1, s1),
{
    reveal(cover_inv);
    assert forall|i: int, j: int|
        #![trigger m1.cell(i, j)]
        lattice_of(start, x, y, i, j) && m1.cell(i, j) != Cell::Wall implies on_stack(s1, i, j)
        || settled(m1, i, j) by {
        if m0.cell(i, j) != Cell::Wall {
            assert(lattice_of(start, x, y, i, j) && m0.cell(i, j) != Cell::Wall);
            if on_stack(s0, i, j) {
                let k = choose|k: int| 0 <= k < s0.len() && #[trigger] s0[k].x == i && s0[k].y == j;
                assert(s1[k].x == i && s1[k].y == j);
            } else {
                lemma_settled_grow(m0, m1, i, j);
            }
        }
    }
}

/// Relies on std's `DefaultHasher::new`, `Hash` for `(usize, usize, usize)` and
/// `Hasher::finish`: a hash of a carving position, used only to shuffle the
/// carving directions. Nothing is assumed of its value.
#[verifier::external_body]
fn position_hash(x: usize, y: usize, i: usize) -> (h: u64) {
    let mut hasher = std::collections::hash_map::DefaultHasher::new();
    std::hash::Hash::hash(&(x, y, i), &mut hasher);
    std::hash::Hasher::finish(&hasher)
}

/// The four carving directions (up, right, down, left), shuffled by a hash of
/// the position.
fn shuffled_directions(x: usize, y: usize) -> (order: Vec<u8>)
    ensures
        order@.len() == 4,
        forall|i: int| 0 <= i < 4 ==> (#[trigger] order@[i]) < 4,
        forall|d: int| 0 <= d < 4 ==> #[trigger] has_dir(order@, d),
{
    let mut order: Vec<u8> = vec![0, 1, 2, 3];
    assert(has_dir(order@, 0) && order@[0] == 0);
    assert(order@[1] == 1 && has_dir(order@, 1));
    assert(order@[2] == 2 && has_dir(order@, 2));
    assert(order@[3] == 3 && has_dir(order@, 3));
    let mut i: usize = 0;
    while i < 4
        invariant
            order@.len() == 4,
            forall|k: int| 0 <= k < 4 ==> (#[trigger] order@[k]) < 4,
            forall|d: int| 0 <= d < 4 ==> #[trigger] has_dir(order@, d),
        decreases 4 - i,
    {
        let j = (position_hash(x, y, i) % 4) as usize;
        let a = order[i];
        let b = order[j];
        let ghost o0 = order@;
        order.set(i, b);
        order.set(j, a);
        proof {
            assert forall|d: int| 0 <= d < 4 implies #[trigger] has_dir(order@, d) by {
                assert(has_dir(o0, d));
                let t = choose|t: int| 0 <= t < 4 && #[trigger] o0[t] == d;
                let t2 = if t == i {
                    j as int
                } else if t == j {
                    i as int
                } else {
                    t
                };
                assert(order@[t2] == d);
            }
        }
        i += 1;
    }
    order
}

impl Maze {
    /// Carves a labyrinth from `(x, y)` by randomized depth-first search over
    /// the cells two steps apart, opening the wall between each visited pair.
    /// The walk keeps its pending cells on an explicit stack.
    /// Tries direction `d` from the interior cell `(fx, fy)`: when the cell two
    /// steps away is an interior wall, opens the wall between and that cell
    /// and returns `(nx, ny, wx, wy)`; otherwise changes nothing.
    fn carve_toward(&mut self, fx: usize, fy: usize, d: u8) -> (r: Option<(usize, usize, usize, usize)>)
        requires
            old(self).wf(),
            interior(old(self), fx as int, fy as int),
        ensures
            final(self).wf(),
            final(self).same_meta(old(self)),
            open_or_off(final(self), two_steps(fx as int, fy as int, d as int)),
            r is None ==> *final(self) == *old(self),
            r matches Some((nx, ny, wx, wy)) ==> {
                &&& (nx as int, ny as int) == two_steps(fx as int, fy as int, d as int)
                &&& interior(old(self), nx as int, ny as int)
                &&& adjacent((fx as int, fy as int), (wx as int, wy as int))
                &&& adjacent((wx as int, wy as int), (nx as int, ny as int))
                &&& wall_count(final(self)) < wall_count(old(self))
                &&& exists|m1: Maze|
                    m1.is_set_from(old(self), wx as int, wy as int, Cell::Path)
                        && #[trigger] final(self).is_set_from(&m1, nx as int, ny as int, Cell::Path)
            },
    {
        let target: Option<(usize, usize, usize, usize)> = if d == 0 {
            if fy >= 2 {
                Some((fx, fy - 2, fx, fy - 1))
            } else {
                None
            }
        } else if d == 1 {
            Some((fx + 2, fy, fx + 1, fy))
        } else if d == 2 {
            Some((fx, fy + 2, fx, fy + 1))
        } else if fx >= 2 {
            Some((fx - 2, fy, fx - 1, fy))
        } else {
            None
        };
        if let Some((nx, ny, wx, wy)) = target {
            if nx > 0 && nx < self.width - 1 && ny > 0 && ny < self.height - 1 && self.get(nx, ny)
                == Cell::Wall {
                let ghost m0 = *self;
                self.set_path(wx, wy);
                let ghost m1 = *self;
                self.set_path(nx, ny);
                proof {
                    lemma_wall_count_set(&m0, &m1, wx as int, wy as int, Cell::Path);
                    lemma_wall_count_set(&m1, self, nx as int, ny as int, Cell::Path);
                    assert(m1.is_set_from(&m0, wx as int, wy as int, Cell::Path));
                }
                return Some((nx, ny, wx, wy));
            }
        }
        None
    }

    #[verifier::spinoff_prover]
    #[verifier::rlimit(100)]
    fn generate_recursive_maze(maze: &mut Maze, x: usize, y: usize)
        requires
            old(maze).wf(),
        ensures
            final(maze).wf(),
            final(maze).same_meta(old(maze)),
            forall|i: int, j: int|
                #![trigger final(maze).cell(i, j)]
                final(maze).in_bounds(i, j) ==> (final(maze).cell(i, j) == old(maze).cell(i, j)
                    || final(maze).cell(i, j) == Cell::Path) && (!interior(old(maze), i, j)
                    ==> final(maze).cell(i, j) == old(maze).cell(i, j)),
            interior(old(maze), x as int, y as int) ==> final(maze).cell(x as int, y as int)
                == Cell::Path,
            forall|i: int, j: int|
                #![trigger final(maze).cell(i, j)]
                final(maze).in_bounds(i, j) && final(maze).cell(i, j) != old(maze).cell(i, j)
                    ==> reachable(final(maze), (x as int, y as int), (i, j)),
            !interior(old(maze), x as int, y as int) ==> forall|i: int, j: int|
                #![trigger final(maze).cell(i, j)]
                final(maze).in_bounds(i, j) ==> final(maze).cell(i, j) == old(maze).cell(i, j),
            interior(old(maze), x as int, y as int) && (forall|i: int, j: int|
                #![trigger old(maze).cell(i, j)]
                old(maze).in_bounds(i, j) ==> old(maze).cell(i, j) == Cell::Wall) ==> forall|
                i: int,
                j: int,
            |
                #![trigger final(maze).cell(i, j)]
                lattice_of(old(maze), x as int, y as int, i, j) ==> final(maze).cell(i, j)
                    == Cell::Path,
    {
        let ghost start = *maze;
        let ghost all_wall = forall|i: int, j: int|
            #![trigger start.cell(i, j)]
            start.in_bounds(i, j) ==> start.cell(i, j) == Cell::Wall;
        if maze.width < 2 || maze.height < 2 || x == 0 || y == 0 || x >= maze.width - 1 || y
            >= maze.height - 1 {
            return;
        }
        maze.set_path(x, y);
        proof {
            lemma_reach_self(maze, (x as int, y as int));
        }
        let mut stack: Vec<CarveFrame> = Vec::new();
        stack.push(CarveFrame { x, y, order: shuffled_directions(x, y), next: 0 });
        proof {
            assert(stack@[0].x == x && stack@[0].y == y);
            assert(on_stack(stack@, x as int, y as int));
            reveal(changed_reachable);
            reveal(frames_reachable);
            assert forall|i: int, j: int|
                #![trigger maze.cell(i, j)]
                maze.in_bounds(i, j) && maze.cell(i, j) != start.cell(i, j) implies reachable(
                maze,
                (x as int, y as int),
                (i, j),
            ) by {
                assert(i == x && j == y);
            }
            reveal(tried_open);
            reveal(cover_inv);
            if all_wall {
                assert forall|i: int, j: int|
                    #![trigger maze.cell(i, j)]
                    lattice_of(&start, x as int, y as int, i, j) && maze.cell(i, j) != Cell::Wall
                        implies on_stack(stack@, i, j) || settled(maze, i, j) by {
                    assert(start.cell(i, j) == Cell::Wall);
                }
            }
        }
        while stack.len() > 0
            invariant
                maze.wf(),
                maze.same_meta(&start),
                start.wf(),
                maze.width >= 2,
                maze.height >= 2,
                forall|k: int| 0 <= k < stack@.len() ==> frame_ok(maze, #[trigger] stack@[k]),
                interior(&start, x as int, y as int),
                maze.cell(x as int, y as int) == Cell::Path,
                forall|i: int, j: int|
                    #![trigger maze.cell(i, j)]
                    maze.in_bounds(i, j) ==> (maze.cell(i, j) == start.cell(i, j) || maze.cell(i, j)
                        == Cell::Path) && (!interior(&start, i, j) ==> maze.cell(i, j)
                        == start.cell(i, j)),
                changed_reachable(&start, maze, (x as int, y as int)),
                frames_reachable(maze, (x as int, y as int), stack@),
                forall|k: int|
                    0 <= k < stack@.len() ==> lattice_of(
                        &start,
                        x as int,
                        y as int,
                        (#[trigger] stack@[k]).x as int,
                        stack@[k].y as int,
                    ),
                tried_open(maze, stack@),
                all_wall ==> cover_inv(&start, x as int, y as int, maze, stack@),
            decreases wall_count(maze), stack_weight(stack@),
        {
            let ghost s0 = stack@;
            let ghost mz0 = *maze;
            let mut f = stack.pop().unwrap();
            assert(stack@ =~= s0.drop_last());
            assert(f == s0[s0.len() - 1]);
            assert(frame_ok(maze, s0[s0.len() - 1]));
            assert(reachable(maze, (x as int, y as int), (f.x as int, f.y as int))) by {
                reveal(frames_reachable);
            }
            if f.next < 4 {
                let d = f.order[f.next];
                f.next = f.next + 1;
                let (fx, fy) = (f.x, f.y);
                let ghost f2 = f;
                stack.push(f);
                let ghost s1 = stack@;
                assert(stack_weight(s1) < stack_weight(s0)) by {
                    assert(s1.drop_last() =~= s0.drop_last());
                }
                assert(lattice_of(&start, x as int, y as int, fx as int, fy as int));
                let r = maze.carve_toward(fx, fy, d);
                proof {
                    assert(frames_reachable(&mz0, (x as int, y as int), s1)) by {
                        reveal(frames_reachable);
                        assert forall|k: int| 0 <= k < s1.len() implies reachable(
                            &mz0,
                            (x as int, y as int),
                            ((#[trigger] s1[k]).x as int, s1[k].y as int),
                        ) by {
                            if k < s1.len() - 1 {
                                assert(s1[k] == s0[k]);
                            }
                        }
                    }
                    assert(opens_grow(&mz0, maze));
                    lemma_tried_grow(&mz0, maze, s0);
                    lemma_tried_advance(maze, s0, f2);
                    assert(s1 =~= s0.drop_last().push(f2));
                }
                if let Some((nx, ny, wx, wy)) = r {
                    proof {
                        let m1 = choose|m1: Maze|
                            m1.is_set_from(&mz0, wx as int, wy as int, Cell::Path)
                                && #[trigger] maze.is_set_from(&m1, nx as int, ny as int, Cell::Path);
                        lemma_reach_carve(
                            &start,
                            &mz0,
                            &m1,
                            maze,
                            (x as int, y as int),
                            (fx as int, fy as int),
                            (wx as int, wy as int),
                            (nx as int, ny as int),
                            s1,
                        );
                    }
                    stack.push(
                        CarveFrame { x: nx, y: ny, order: shuffled_directions(nx, ny), next: 0 },
                    );
                    proof {
                        assert(stack@ =~= s1.push(stack@.last()));
                        lemma_tried_push_fresh(maze, s1, stack@.last());
                        assert(frames_reachable(maze, (x as int, y as int), stack@)) by {
                            reveal(frames_reachable);
                            assert forall|k: int| 0 <= k < stack@.len() implies reachable(
                                maze,
                                (x as int, y as int),
                                ((#[trigger] stack@[k]).x as int, stack@[k].y as int),
                            ) by {
                                if k < s1.len() {
                                    assert(stack@[k] == s1[k]);
                                }
                            }
                        }
                        if all_wall {
                            let m1 = choose|m1: Maze|
                                m1.is_set_from(&mz0, wx as int, wy as int, Cell::Path)
                                    && #[trigger] maze.is_set_from(&m1, nx as int, ny as int, Cell::Path);
                            assert forall|i: int, j: int|
                                #![trigger maze.cell(i, j)]
                                lattice_of(&start, x as int, y as int, i, j) && maze.cell(i, j)
                                    != Cell::Wall && mz0.cell(i, j) == Cell::Wall implies on_stack(
                                stack@,
                                i,
                                j,
                            ) by {
                                assert(m1.cell(i, j) == mz0.cell(i, j) || (i == wx && j == wy));
                                assert(i == nx && j == ny);
                                assert(stack@[stack@.len() - 1].x == i);
                            }
                            assert forall|k: int| 0 <= k < s0.len() implies (#[trigger] stack@[k]).x
                                == s0[k].x && stack@[k].y == s0[k].y by {
                                assert(stack@[k] == s1[k]);
                            }
                            lemma_cover_grow(&start, x as int, y as int, &mz0, maze, s0, stack@);
                        }
                    }
                } else {
                    proof {
                        if all_wall {
                            assert forall|k: int| 0 <= k < s0.len() implies (#[trigger] s1[k]).x
                                == s0[k].x && s1[k].y == s0[k].y by {}
                            lemma_cover_grow(&start, x as int, y as int, &mz0, maze, s0, s1);
                        }
                    }
                }
            } else {
                proof {
                    assert(frames_reachable(maze, (x as int, y as int), s0.drop_last())) by {
                        reveal(frames_reachable);
                        assert forall|k: int| 0 <= k < s0.len() - 1 implies reachable(
                            maze,
                            (x as int, y as int),
                            ((#[trigger] s0.drop_last()[k]).x as int, s0.drop_last()[k].y as int),
                        ) by {
                            assert(s0.drop_last()[k] == s0[k]);
                        }
                    }
                    lemma_tried_drop(maze, s0);
                    if all_wall {
                        lemma_top_settled(maze, s0);
                        lemma_cover_drop(&start, x as int, y as int, maze, s0);
                    }
                }
            }
        }
        proof {
            reveal(changed_reachable);
            if all_wall {
                reveal(cover_inv);
                assert forall|i: int, j: int|
                    #![trigger maze.cell(i, j)]
                    lattice_of(maze, x as int, y as int, i, j) && maze.cell(i, j) != Cell::Wall
                        implies settled(maze, i, j) by {
                    assert(lattice_of(&start, x as int, y as int, i, j));
                    assert(!on_stack(stack@, i, j));
                }
                assert forall|i: int, j: int|
                    #![trigger maze.cell(i, j)]
                    lattice_of(&start, x as int, y as int, i, j) implies maze.cell(i, j)
                        == Cell::Path by {
                    lemma_lattice_cover(maze, x as int, y as int, i, j);
                    assert(start.cell(i, j) == Cell::Wall);
                }
            }
        }
    }

    /// Labyrinth: a carved labyrinth with an open centre, cover on a lattice
    /// and spawn points on the first walkable cells.
    fn level4_symmetrical() -> (maze: Maze)
        ensures
            shaped(&maze, 4, 28, 28, 10),
            maze.name@ == "The Labyrinth"@,
            maze.description@ == "Complex multi-layer maze"@,
            maze.walkable_at(1, 1),
            spawns_reachable(&maze),
            forall|x: int, y: int|
                #![trigger maze.cell(x, y)]
                maze.in_bounds(x, y) ==> {
                    &&& (x == 0 || x == 27 || y == 0 || y == 27) ==> maze.cell(x, y) == Cell::Wall
                    &&& (8 <= x < 20 && 8 <= y < 20) ==> maze.walkable_at(x, y)
                    &&& maze.cell(x, y) == Cell::SpawnPoint <==> maze.walkable_at(x, y) && walk_rank(
                        &maze,
                        x,
                        y,
                    ) < 10
                },
    {
        let mut maze = Maze::new(
            28,
            28,
            4,
            "The Labyrinth".to_string(),
            "Complex multi-layer maze".to_string(),
            10,
        );
        let ghost blank = maze;
        Maze::generate_recursive_maze(&mut maze, 1, 1);
        let ghost carved = maze;
        maze.fill_path(8, 20, 8, 20);
        let ghost opened = maze;
        maze.cover_lattice();
        let ghost before = maze;
        maze.spawn_on_first_walkable(10);
        proof {
            lemma_same_walkable_rank(&before, &maze);
            let o = (1int, 1int);
            assert(lattice_of(&blank, 1, 1, 9, 9));
            assert(carved.cell(9, 9) == Cell::Path);
            assert(reachable(&carved, o, (9, 9)));
            assert forall|i: int, j: int| #[trigger] carved.walkable_at(i, j) implies opened.walkable_at(i, j) by {}
            assert forall|i: int, j: int| #[trigger] opened.walkable_at(i, j) implies before.walkable_at(i, j) by {}
            assert forall|i: int, j: int| #[trigger] before.walkable_at(i, j) implies maze.walkable_at(i, j) by {}
            lemma_reach_mono(&carved, &opened, o, (9, 9));
            assert forall|a: int, b: int|
                maze.in_bounds(a, b) && #[trigger] maze.cell(a, b) == Cell::SpawnPoint implies reachable(
                &maze,
                o,
                (a, b),
            ) by {
                assert(maze.walkable_at(a, b));
                assert(opened.walkable_at(a, b));
                if 8 <= a < 20 && 8 <= b < 20 {
                    lemma_reach_line_x(&opened, o, 9, 9, a);
                    lemma_reach_line_y(&opened, o, a, 9, b);
                } else {
                    assert(carved.walkable_at(a, b));
                    assert(carved.cell(a, b) != blank.cell(a, b));
                    lemma_reach_mono(&carved, &opened, o, (a, b));
                }
                lemma_reach_mono(&opened, &before, o, (a, b));
                lemma_reach_mono(&before, &maze, o, (a, b));
            }
        }
        maze
    }

    /// The level with the given id, with a route carved from the start cell
    /// to every spawn point. An unknown id gives the first level.
    pub fn load_level(level: u8) -> (maze: Maze)
        ensures
            shaped(
                &maze,
                level_shape(level).0,
                level_shape(level).1,
                level_shape(level).2,
                level_shape(level).3,
            ),
            maze.name@ == level_name(level_number(level)),
            maze.description@ == level_description(level_number(level)),
            maze.walkable_at(START_X as int, START_Y as int),
            spawns_reachable(&maze),
            level_number(level) != 4 ==> forall|x: int, y: int|
                maze.in_bounds(x, y) ==> #[trigger] maze.cell(x, y) == generated_cell(
                    level_number(level),
                    x,
                    y,
                ),
    {
        let mut maze = match level {
            1 => Maze::level1_arena(),
            2 => Maze::level2_corridors(),
            3 => Maze::level3_complex(),
            4 => Maze::level4_symmetrical(),
            5 => Maze::level5_open(),
            _ => Maze::level1_arena(),
        };
        let ghost base = maze;
        let ghost l = level_number(level);
        maze.connect_spawns();
        proof {
            if l != 4 {
                assert(forall|x: int, y: int|
                    base.in_bounds(x, y) ==> #[trigger] base.cell(x, y) == level_cell(l, x, y));
                assert forall|x: int, y: int| maze.in_bounds(x, y) implies #[trigger] maze.cell(x, y)
                    == generated_cell(l, x, y) by {
                    assert(maze.cell(x, y) == routed_cell(&base, x, y));
                    if routed(&base, x, y) && !(x == START_X && y == START_Y) {
                        let (sx, sy) = choose|sx: int, sy: int|
                            base.in_bounds(sx, sy) && base.cell(sx, sy) == Cell::SpawnPoint
                                && #[trigger] on_route(sx, sy, x, y);
                        assert(level_cell(l, sx, sy) == Cell::SpawnPoint);
                        assert(level_routed(l, x, y));
                    }
                    if level_routed(l, x, y) && !(x == START_X && y == START_Y) {
                        let (sx, sy) = choose|sx: int, sy: int|
                            0 <= sx < level_shape(l).1 && 0 <= sy < level_shape(l).2 && level_cell(
                                l,
                                sx,
                                sy,
                            ) == Cell::SpawnPoint && #[trigger] on_route(sx, sy, x, y);
                        assert(base.in_bounds(sx, sy));
                        assert(routed(&base, x, y));
                    }
                }
            }
        }
        maze
    }
}

/// The level that `load_level(level)` builds: ids 1 to 5 name a level, any
/// other id selects the first.
pub open spec fn level_number(level: u8) -> u8 {
    if 1 <= level <= 5 {
        level
    } else {
        1
    }
}

/// The name of level `l`.
pub open spec fn level_name(l: u8) -> Seq<char> {
    if l == 2 {
        "The Corridors"@
    } else if l == 3 {
        "The Zigzag"@
    } else if l == 4 {
        "The Labyrinth"@
    } else if l == 5 {
        "The Brutal Death Maze"@
    } else {
        "The Arena"@
    }
}

/// The description of level `l`.
pub open spec fn level_description(l: u8) -> Seq<char> {
    if l == 2 {
        "Tactical corridor combat"@
    } else if l == 3 {
        "Compact zigzag maze with tight corridors"@
    } else if l == 4 {
        "Complex multi-layer maze"@
    } else if l == 5 {
        "Brutal death maze - extremely complex and challenging"@
    } else {
        "Close-quarters combat arena"@
    }
}

/// The laid-out cell `(x, y)` of level `l` (other than the carved labyrinth,
/// level 4), before routes are carved.
pub open spec fn level_cell(l: u8, x: int, y: int) -> Cell {
    if l == 2 {
        corridors_cell(x, y)
    } else if l == 3 {
        zigzag_cell(x, y)
    } else if l == 5 {
        death_cell(x, y)
    } else {
        arena_cell(x, y)
    }
}

/// `(x, y)` is the start cell or on the route to a spawn point of level `l`.
pub open spec fn level_routed(l: u8, x: int, y: int) -> bool {
    ||| (x == START_X && y == START_Y)
    ||| exists|sx: int, sy: int|
        0 <= sx < level_shape(l).1 && 0 <= sy < level_shape(l).2 && level_cell(l, sx, sy)
            == Cell::SpawnPoint && #[trigger] on_route(sx, sy, x, y)
}

/// The cell `(x, y)` of the generated level `l`: its layout with the routes
/// to its spawn points carved.
pub open spec fn generated_cell(l: u8, x: int, y: int) -> Cell {
    if level_cell(l, x, y) == Cell::Wall && level_routed(l, x, y) {
        Cell::Path
    } else {
        level_cell(l, x, y)
    }
}

} // verus!
