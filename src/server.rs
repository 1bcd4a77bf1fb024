//! The authoritative world: players, projectiles, the active level and the
//! spawn cursor, with the operations that change them.
use vstd::prelude::*;
use crate::level::{
    generated_cell, level_name, level_shape, shaped, spawns_reachable, START_X, START_Y,
};
use crate::maze::{
    cells_of, in_class, lemma_cells_of_members, lemma_class_nonempty, take_upto, Cell, CellClass,
    Maze,
};
use crate::protocol::{
    is_wire_of, maze_to_protocol, Action, Bullet, DeathEvent, HitEvent, InputUpdate, JoinAccept,
    MazeLevel, PlayerState, Snapshot,
};

verus! {

/// Thousandths of a cell per cell: the unit of every position.
pub const UNITS_PER_CELL: i64 = 1000;

/// The largest level side the world accepts.
pub const MAX_SIDE: usize = 65536;

pub const FULL_HEALTH: u8 = 100;

pub const FULL_AMMO: u8 = 30;

/// Minimum time between two accepted shots of one player.
pub const SHOT_COOLDOWN_MS: u64 = 500;

/// Projectile speed in cells per second.
pub const BULLET_SPEED: i64 = 25;

/// Simulation steps per second.
pub const STEPS_PER_SECOND: i64 = 60;

pub const BULLET_DAMAGE: u8 = 25;

/// Projectile lifetime in simulation steps (three seconds).
pub const BULLET_MAX_AGE: u32 = 180;

/// A projectile hits a player closer than this, in thousandths of a cell.
pub const HIT_RADIUS: i64 = 500;

/// Score awarded for a kill.
pub const KILL_SCORE: u32 = 100;

/// How many spawn cells a level offers before they are reused cyclically.
pub const SPAWN_COUNT: usize = 128;

/// The player id that marks an `Accept` as a level change sent to everyone.
pub const LEVEL_CHANGE_ID: u64 = 0;

/// Largest per-step displacement of a projectile along one axis.
pub const MAX_STEP: i64 = 1000;

/// A client's transport address: an IPv6 address (IPv4 mapped) and a port.
#[derive(Debug, Clone, Copy, PartialEq, Eq, Structural, Hash)]
pub struct Endpoint {
    pub ip: u128,
    pub port: u16,
}

/// A connected player.
#[derive(Debug)]
pub struct PlayerInfo {
    pub player_id: u64,
    pub addr: Endpoint,
    pub username: String,
    pub pos_x: i64,
    pub pos_y: i64,
    pub angle: i64,
    pub health: u8,
    pub score: u32,
    pub ammo: u8,
    pub kills: u32,
    pub deaths: u32,
    pub last_seen_ms: u64,
    pub last_shot_ms: Option<u64>,
}

/// A projectile in flight; `vx`, `vy` are its displacement per simulation step.
#[derive(Debug, Clone, Copy)]
pub struct BulletInfo {
    pub bullet_id: u64,
    pub shooter_id: u64,
    pub x: i64,
    pub y: i64,
    pub angle: i64,
    pub vx: i64,
    pub vy: i64,
    pub damage: u8,
    pub age: u32,
    pub max_age: u32,
}

/// The single authoritative copy of the world.
#[derive(Debug)]
pub struct ServerState {
    pub logic_maze: Maze,
    /// Players in order of joining, hence of increasing id.
    pub players: Vec<PlayerInfo>,
    pub next_player_id: u64,
    pub next_bullet_id: u64,
    /// Projectiles in order of firing, hence of increasing id.
    pub bullets: Vec<BulletInfo>,
    pub spawns: Vec<(usize, usize)>,
    pub spawn_cursor: usize,
}

/// A position lies on a walkable cell of `m`: both coordinates are
/// non-negative and the cell they floor to is in the grid and not a wall.
pub open spec fn on_walkable(m: &Maze, x: i64, y: i64) -> bool {
    x >= 0 && y >= 0 && m.walkable_at(x / UNITS_PER_CELL, y / UNITS_PER_CELL)
}

/// The centre of a cell.
pub open spec fn spawn_center(c: (usize, usize)) -> (i64, i64) {
    ((c.0 * UNITS_PER_CELL + UNITS_PER_CELL / 2) as i64, (c.1 * UNITS_PER_CELL + UNITS_PER_CELL
        / 2) as i64)
}

/// The spawn cells of a level: up to `SPAWN_COUNT` of them, spawn points
/// first, then the other walkable cells.
pub open spec fn spawn_list(m: &Maze) -> Seq<(usize, usize)> {
    take_upto(
        cells_of(m, CellClass::Spawn) + cells_of(m, CellClass::OpenFloor),
        SPAWN_COUNT as int,
    )
}

/// The level has at least one walkable cell.
pub open spec fn has_walkable(m: &Maze) -> bool {
    exists|x: int, y: int| m.walkable_at(x, y)
}

/// No two players share an address.
pub open spec fn addrs_distinct(s: Seq<PlayerInfo>) -> bool {
    forall|i: int, j: int| 0 <= i < j < s.len() ==> s[i].addr != s[j].addr
}

/// Player `i` of `s` is at address `addr`.
pub open spec fn holds_addr(s: Seq<PlayerInfo>, i: int, addr: Endpoint) -> bool {
    0 <= i < s.len() && s[i].addr == addr
}

pub open spec fn player_ok(m: &Maze, p: PlayerInfo) -> bool {
    on_walkable(m, p.pos_x, p.pos_y) && p.health <= FULL_HEALTH
}

pub open spec fn bullet_ok(m: &Maze, b: BulletInfo) -> bool {
    &&& on_walkable(m, b.x, b.y)
    &&& -MAX_STEP <= b.vx <= MAX_STEP
    &&& -MAX_STEP <= b.vy <= MAX_STEP
    &&& b.age < b.max_age
}

pub open spec fn player_ids_increasing(s: Seq<PlayerInfo>) -> bool {
    forall|i: int, j: int| 0 <= i < j < s.len() ==> s[i].player_id < s[j].player_id
}

pub open spec fn bullet_ids_increasing(s: Seq<BulletInfo>) -> bool {
    forall|i: int, j: int| 0 <= i < j < s.len() ==> s[i].bullet_id < s[j].bullet_id
}

/// The same players with the same ids, in the same order.
pub open spec fn same_ids(a: Seq<PlayerInfo>, b: Seq<PlayerInfo>) -> bool {
    a.len() == b.len() && forall|i: int| 0 <= i < a.len() ==> a[i].player_id == b[i].player_id
}

/// Index of the player with the given id.
pub open spec fn holds_player(s: Seq<PlayerInfo>, i: int, id: u64) -> bool {
    0 <= i < s.len() && s[i].player_id == id
}

/// `q` is the player that joined with the given values.
pub open spec fn joined(
    q: PlayerInfo,
    id: u64,
    addr: Endpoint,
    name: Seq<char>,
    pos: (i64, i64),
    now_ms: u64,
) -> bool {
    &&& q.player_id == id
    &&& q.addr == addr
    &&& q.username@ == name
    &&& q.pos_x == pos.0
    &&& q.pos_y == pos.1
    &&& q.angle == 0
    &&& q.health == FULL_HEALTH
    &&& q.score == 0
    &&& q.ammo == FULL_AMMO
    &&& q.kills == 0
    &&& q.deaths == 0
    &&& q.last_seen_ms == now_ms
    &&& q.last_shot_ms == None::<u64>
}

impl ServerState {
    /// The world's invariant: `wf_core`, and every player is alive.
    pub open spec fn wf(&self) -> bool {
        &&& self.wf_core()
        &&& forall|i: int| 0 <= i < self.players@.len() ==> (#[trigger] self.players@[i]).health > 0
    }

    /// The world's invariant but for the players' health being positive,
    /// which a simulation step breaks until its respawns.
    pub open spec fn wf_core(&self) -> bool {
        let m = &self.logic_maze;
        &&& m.wf()
        &&& 1 <= m.width <= MAX_SIDE
        &&& 1 <= m.height <= MAX_SIDE
        &&& self.spawns@.len() > 0
        &&& self.spawn_cursor < self.spawns@.len()
        &&& forall|i: int|
            0 <= i < self.spawns@.len() ==> m.walkable_at(
                (#[trigger] self.spawns@[i]).0 as int,
                self.spawns@[i].1 as int,
            )
        &&& player_ids_increasing(self.players@)
        &&& addrs_distinct(self.players@)
        &&& 1 <= self.next_player_id
        &&& forall|i: int|
            0 <= i < self.players@.len() ==> (#[trigger] self.players@[i]).player_id
                < self.next_player_id
        &&& forall|i: int| 0 <= i < self.players@.len() ==> player_ok(m, #[trigger] self.players@[i])
        &&& bullet_ids_increasing(self.bullets@)
        &&& forall|i: int|
            0 <= i < self.bullets@.len() ==> (#[trigger] self.bullets@[i]).bullet_id
                < self.next_bullet_id
        &&& forall|i: int| 0 <= i < self.bullets@.len() ==> bullet_ok(m, #[trigger] self.bullets@[i])
    }

    /// The level and its spawn cells are those of `other`.
    pub open spec fn same_level(&self, other: &ServerState) -> bool {
        self.logic_maze == other.logic_maze && self.spawns@ == other.spawns@
    }
}

proof fn lemma_center_cell(c: (usize, usize))
    requires
        c.0 < MAX_SIDE,
        c.1 < MAX_SIDE,
    ensures
        spawn_center(c).0 >= 0,
        spawn_center(c).1 >= 0,
        spawn_center(c).0 / UNITS_PER_CELL == c.0,
        spawn_center(c).1 / UNITS_PER_CELL == c.1,
{
}

/// The spawn cells of a level with a walkable cell are all walkable, and
/// there is at least one.
proof fn lemma_spawn_list_walkable(m: &Maze)
    requires
        m.wf(),
        has_walkable(m),
    ensures
        spawn_list(m).len() > 0,
        spawn_list(m).len() <= SPAWN_COUNT,
        forall|i: int|
            0 <= i < spawn_list(m).len() ==> m.walkable_at(
                (#[trigger] spawn_list(m)[i]).0 as int,
                spawn_list(m)[i].1 as int,
            ),
{
    lemma_cells_of_members(m, CellClass::Spawn);
    lemma_cells_of_members(m, CellClass::OpenFloor);
    let a = cells_of(m, CellClass::Spawn);
    let b = cells_of(m, CellClass::OpenFloor);
    let s = take_upto(a + b, SPAWN_COUNT as int);
    let (x, y) = choose|x: int, y: int| m.walkable_at(x, y);
    if m.cell(x, y) == Cell::SpawnPoint {
        lemma_class_nonempty(m, x, y, CellClass::Spawn);
    } else {
        lemma_class_nonempty(m, x, y, CellClass::OpenFloor);
    }
    assert forall|i: int| 0 <= i < s.len() implies m.walkable_at(
        (#[trigger] s[i]).0 as int,
        s[i].1 as int,
    ) by {
        assert(s[i] == (a + b)[i]);
        if i < a.len() {
            assert(in_class(m.cell(a[i].0 as int, a[i].1 as int), CellClass::Spawn));
        } else {
            assert((a + b)[i] == b[i - a.len()]);
            assert(in_class(m.cell(b[i - a.len()].0 as int, b[i - a.len()].1 as int), CellClass::OpenFloor));
        }
    }
}

/// `post` is `pre` after player `id` joined from `addr` under `name` at
/// `now_ms`: it is appended at the spawn cell under the cursor, the cursor
/// moves on and the player counter passes `id`.
pub open spec fn registered(
    pre: &ServerState,
    post: &ServerState,
    id: u64,
    addr: Endpoint,
    name: Seq<char>,
    now_ms: u64,
) -> bool {
    &&& id == pre.next_player_id
    &&& post.next_player_id == id + 1
    &&& post.players@.len() == pre.players@.len() + 1
    &&& post.players@.drop_last() == pre.players@
    &&& joined(
        post.players@.last(),
        id,
        addr,
        name,
        spawn_center(pre.spawns@[pre.spawn_cursor as int]),
        now_ms,
    )
    &&& post.spawn_cursor == (pre.spawn_cursor + 1) % (pre.spawns@.len() as int)
    &&& post.same_level(pre)
    &&& post.bullets@ == pre.bullets@
    &&& post.next_bullet_id == pre.next_bullet_id
}

/// `post` is `pre` without player `id`, whose address is `r`; `r` is
/// `None` and nothing changed when there was no such player.
pub open spec fn removed(pre: &ServerState, post: &ServerState, id: u64, r: Option<Endpoint>) -> bool {
    &&& post.same_level(pre)
    &&& post.spawn_cursor == pre.spawn_cursor
    &&& post.bullets@ == pre.bullets@
    &&& post.next_player_id == pre.next_player_id
    &&& post.next_bullet_id == pre.next_bullet_id
    &&& r is None <==> !exists|i: int| holds_player(pre.players@, i, id)
    &&& r is None ==> post.players@ == pre.players@
    &&& forall|i: int|
        holds_player(pre.players@, i, id) ==> r == Some(pre.players@[i].addr) && post.players@
            == pre.players@.remove(i)
}

/// `post` is `pre` after the input `input` with heading `(dir_x, dir_y)`
/// at `now_ms`.
pub open spec fn input_applied(
    pre: &ServerState,
    post: &ServerState,
    input: InputUpdate,
    dir_x: i64,
    dir_y: i64,
    now_ms: u64,
) -> bool {
    &&& post.same_level(pre)
    &&& post.spawn_cursor == pre.spawn_cursor
    &&& post.next_player_id == pre.next_player_id
    &&& same_ids(post.players@, pre.players@)
    &&& (!exists|i: int| holds_player(pre.players@, i, input.player_id)) ==> {
        &&& post.players@ == pre.players@
        &&& post.bullets@ == pre.bullets@
        &&& post.next_bullet_id == pre.next_bullet_id
    }
    &&& !accepts_move(&pre.logic_maze, input) ==> {
        &&& post.players@ == pre.players@
        &&& post.bullets@ == pre.bullets@
        &&& post.next_bullet_id == pre.next_bullet_id
    }
    &&& forall|i: int|
        holds_player(pre.players@, i, input.player_id) && accepts_move(
            &pre.logic_maze,
            input,
        ) ==> {
            let p = pre.players@[i];
            let fire = fires(p, input, now_ms, pre.next_bullet_id);
            &&& applied_input(p, post.players@[i], input, now_ms, fire)
            &&& on_walkable(
                &post.logic_maze,
                post.players@[i].pos_x,
                post.players@[i].pos_y,
            )
            &&& forall|k: int|
                0 <= k < pre.players@.len() && k != i ==> post.players@[k]
                    == pre.players@[k]
            &&& post.bullets@ == if fire {
                pre.bullets@.push(
                    fired_bullet(pre.next_bullet_id, input, dir_x, dir_y),
                )
            } else {
                pre.bullets@
            }
            &&& post.next_bullet_id == if fire {
                pre.next_bullet_id + 1
            } else {
                pre.next_bullet_id as int
            }
        }
}

/// `post` is `pre` after switching to the level that `level_id` selects,
/// and `notice` is the level-change notice for all clients.
pub open spec fn level_changed(pre: &ServerState, post: &ServerState, level_id: u32, notice: JoinAccept) -> bool {
    &&& ({
        let (id, w, h, max_players) = level_shape(level_for(level_id));
        shaped(&post.logic_maze, id, w, h, max_players)
    })
    &&& post.logic_maze.name@ == level_name(level_for(level_id))
    &&& level_for(level_id) != 4 ==> forall|x: int, y: int|
        post.logic_maze.in_bounds(x, y) ==> #[trigger] post.logic_maze.cell(x, y)
            == generated_cell(level_for(level_id), x, y)
    &&& spawns_reachable(&post.logic_maze)
    &&& post.spawns@ == spawn_list(&post.logic_maze)
    &&& post.bullets@.len() == 0
    &&& same_ids(post.players@, pre.players@)
    &&& forall|k: int|
        0 <= k < post.players@.len() ==> #[trigger] post.players@[k]
            == respawned(
            pre.players@[k],
            spawn_center(post.spawns@[k % (post.spawns@.len() as int)]),
        )
    &&& post.spawn_cursor == (pre.players@.len() as int) % (
    post.spawns@.len() as int)
    &&& post.next_player_id == pre.next_player_id
    &&& post.next_bullet_id == pre.next_bullet_id
    &&& notice.player_id == LEVEL_CHANGE_ID
    &&& is_wire_of(&notice.level, post.logic_maze.level_id, &post.logic_maze)
}

impl ServerState {
    /// A world on the given level, with no players and no projectiles.
    pub fn new(logic_maze: Maze) -> (st: ServerState)
        requires
            logic_maze.wf(),
            1 <= logic_maze.width <= MAX_SIDE,
            1 <= logic_maze.height <= MAX_SIDE,
            has_walkable(&logic_maze),
        ensures
            st.wf(),
            st.logic_maze == logic_maze,
            st.players@.len() == 0,
            st.bullets@.len() == 0,
            st.next_player_id == 1,
            st.next_bullet_id == 1,
            st.spawns@ == spawn_list(&logic_maze),
            st.spawn_cursor == 0,
    {
        let spawns = logic_maze.spawn_points(SPAWN_COUNT);
        proof {
            lemma_spawn_list_walkable(&logic_maze);
            assert(spawns@ =~= spawn_list(&logic_maze));
        }
        ServerState {
            logic_maze,
            players: Vec::new(),
            next_player_id: 1,
            next_bullet_id: 1,
            bullets: Vec::new(),
            spawns,
            spawn_cursor: 0,
        }
    }

    /// The centre of the spawn cell under the cursor; the cursor moves on,
    /// wrapping round.
    pub fn next_spawn(&mut self) -> (pos: (i64, i64))
        requires
            old(self).wf_core(),
        ensures
            final(self).wf_core(),
            pos == spawn_center(old(self).spawns@[old(self).spawn_cursor as int]),
            on_walkable(&old(self).logic_maze, pos.0, pos.1),
            final(self).spawn_cursor == (old(self).spawn_cursor + 1) % (old(self).spawns@.len() as int),
            final(self).same_level(old(self)),
            final(self).players@ == old(self).players@,
            final(self).bullets@ == old(self).bullets@,
            final(self).next_player_id == old(self).next_player_id,
            final(self).next_bullet_id == old(self).next_bullet_id,
    {
        let (x, y) = self.spawns[self.spawn_cursor];
        proof {
            assert(self.logic_maze.walkable_at(x as int, y as int));
            lemma_center_cell((x, y));
        }
        let n = self.spawns.len();
        self.spawn_cursor = (self.spawn_cursor + 1) % n;
        ((x as i64) * UNITS_PER_CELL + UNITS_PER_CELL / 2, (y as i64) * UNITS_PER_CELL
            + UNITS_PER_CELL / 2)
    }

    /// Adds a player under the next id, at the next spawn cell, with full
    /// health and ammo; returns the id and the new player.
    pub fn register_player(&mut self, addr: Endpoint, username: String, now_ms: u64) -> (r: (
        u64,
        PlayerInfo,
    ))
        requires
            old(self).wf(),
            old(self).next_player_id < u64::MAX,
            !exists|i: int| holds_addr(old(self).players@, i, addr),
        ensures
            final(self).wf(),
            r.0 == old(self).next_player_id,
            registered(old(self), final(self), r.0, addr, username@, now_ms),
            joined(
                r.1,
                r.0,
                addr,
                username@,
                spawn_center(old(self).spawns@[old(self).spawn_cursor as int]),
                now_ms,
            ),
    {
        let player_id = self.next_player_id;
        self.next_player_id = self.next_player_id + 1;
        let (sx, sy) = self.next_spawn();
        let info = PlayerInfo {
            player_id,
            addr,
            username: username.clone(),
            pos_x: sx,
            pos_y: sy,
            angle: 0,
            health: FULL_HEALTH,
            score: 0,
            ammo: FULL_AMMO,
            kills: 0,
            deaths: 0,
            last_seen_ms: now_ms,
            last_shot_ms: None,
        };
        let copy = PlayerInfo {
            player_id,
            addr,
            username,
            pos_x: sx,
            pos_y: sy,
            angle: 0,
            health: FULL_HEALTH,
            score: 0,
            ammo: FULL_AMMO,
            kills: 0,
            deaths: 0,
            last_seen_ms: now_ms,
            last_shot_ms: None,
        };
        let ghost before = self.players@;
        self.players.push(info);
        proof {
            assert(self.players@.drop_last() =~= before);
            assert forall|i: int, j: int| 0 <= i < j < self.players@.len() implies self.players@[i].addr
                != self.players@[j].addr by {
                if j == before.len() {
                    assert(!holds_addr(before, i, addr));
                } else {
                    assert(self.players@[i] == before[i] && self.players@[j] == before[j]);
                }
            }
        }
        (player_id, copy)
    }

    /// Removes the player with the given id and returns its address; `None`,
    /// with nothing changed, when no such player exists.
    pub fn unregister(&mut self, player_id: u64) -> (r: Option<Endpoint>)
        requires
            old(self).wf(),
        ensures
            final(self).wf(),
            removed(old(self), final(self), player_id, r),
    {
        match self.find_player(player_id) {
            Some(i) => {
                let ghost before = self.players@;
                let p = self.players.remove(i);
                proof {
                    assert(holds_player(before, i as int, player_id));
                    assert forall|a: int, b: int|
                        0 <= a < b < self.players@.len() implies self.players@[a].player_id
                        < self.players@[b].player_id by {
                        let a2 = if a < i { a } else { a + 1 };
                        let b2 = if b < i { b } else { b + 1 };
                        assert(self.players@[a] == before[a2]);
                        assert(self.players@[b] == before[b2]);
                    }
                    assert forall|k: int| 0 <= k < self.players@.len() implies (#[trigger] self.players@[k]).player_id
                        < self.next_player_id && player_ok(&self.logic_maze, self.players@[k]) by {
                        let k2 = if k < i { k } else { k + 1 };
                        assert(self.players@[k] == before[k2]);
                    }
                }
                Some(p.addr)
            }
            None => None,
        }
    }

    /// The index of the player at the given address, if there is one.
    pub fn find_addr(&self, addr: Endpoint) -> (r: Option<usize>)
        requires
            addrs_distinct(self.players@),
        ensures
            r is None <==> !exists|i: int| holds_addr(self.players@, i, addr),
            r is Some ==> holds_addr(self.players@, r->0 as int, addr),
            forall|i: int| holds_addr(self.players@, i, addr) ==> r == Some(i as usize),
    {
        let mut i: usize = 0;
        while i < self.players.len()
            invariant
                addrs_distinct(self.players@),
                i <= self.players@.len(),
                forall|k: int| 0 <= k < i ==> self.players@[k].addr != addr,
            decreases self.players@.len() - i,
        {
            if self.players[i].addr == addr {
                proof {
                    assert(holds_addr(self.players@, i as int, addr));
                    assert forall|k: int| holds_addr(self.players@, k, addr) implies k == i by {
                        if k > i {
                            assert(self.players@[i as int].addr != self.players@[k].addr);
                        }
                    }
                }
                return Some(i);
            }
            i += 1;
        }
        None
    }

    /// The index of the player with the given id, if there is one.
    pub fn find_player(&self, player_id: u64) -> (r: Option<usize>)
        requires
            player_ids_increasing(self.players@),
        ensures
            r is None <==> !exists|i: int| holds_player(self.players@, i, player_id),
            r is Some ==> holds_player(self.players@, r->0 as int, player_id),
            forall|i: int|
                holds_player(self.players@, i, player_id) ==> r == Some(i as usize),
    {
        let mut i: usize = 0;
        while i < self.players.len()
            invariant
                player_ids_increasing(self.players@),
                i <= self.players@.len(),
                forall|k: int| 0 <= k < i ==> self.players@[k].player_id != player_id,
            decreases self.players@.len() - i,
        {
            if self.players[i].player_id == player_id {
                proof {
                    assert(holds_player(self.players@, i as int, player_id));
                    assert forall|k: int| holds_player(self.players@, k, player_id) implies k
                        == i by {
                        if k > i {
                            assert(self.players@[i as int].player_id < self.players@[k].player_id);
                        }
                    }
                }
                return Some(i);
            }
            i += 1;
        }
        None
    }

    /// The addresses of all players, in player order.
    pub fn recipients(&self) -> (r: Vec<Endpoint>)
        ensures
            r@.len() == self.players@.len(),
            forall|i: int| 0 <= i < r@.len() ==> r@[i] == (#[trigger] self.players@[i]).addr,
    {
        let mut r: Vec<Endpoint> = Vec::new();
        let mut i: usize = 0;
        while i < self.players.len()
            invariant
                i <= self.players@.len(),
                r@.len() == i,
                forall|k: int| 0 <= k < i ==> r@[k] == (#[trigger] self.players@[k]).addr,
            decreases self.players@.len() - i,
        {
            r.push(self.players[i].addr);
            i += 1;
        }
        r
    }

    /// The wire form of the active level, under its own id.
    pub fn wire_level(&self) -> (wire: MazeLevel)
        requires
            self.wf(),
        ensures
            is_wire_of(&wire, self.logic_maze.level_id, &self.logic_maze),
    {
        maze_to_protocol(self.logic_maze.level_id, &self.logic_maze)
    }
}

/// The claimed position of an input lies on a walkable cell of the level.
pub open spec fn accepts_move(m: &Maze, input: InputUpdate) -> bool {
    on_walkable(m, input.x, input.y)
}

/// At least `SHOT_COOLDOWN_MS` have passed since the player's last accepted shot.
pub open spec fn cooled_down(p: PlayerInfo, now_ms: u64) -> bool {
    match p.last_shot_ms {
        None => true,
        Some(t) => now_ms >= t + SHOT_COOLDOWN_MS,
    }
}

/// An accepted input of player `p` fires a projectile.
pub open spec fn fires(p: PlayerInfo, input: InputUpdate, now_ms: u64, next_bullet_id: u64) -> bool {
    &&& input.action == Action::Shoot
    &&& p.ammo > 0
    &&& cooled_down(p, now_ms)
    &&& next_bullet_id < u64::MAX
}

/// Per-step displacement along one axis for a heading component given in
/// thousandths (rounded toward zero).
pub open spec fn step_of(dir: i64) -> i64 {
    if dir >= 0 {
        (dir as int * BULLET_SPEED as int / STEPS_PER_SECOND as int) as i64
    } else {
        (-((-dir as int) * BULLET_SPEED as int / STEPS_PER_SECOND as int)) as i64
    }
}

/// The projectile that an accepted shot creates.
pub open spec fn fired_bullet(
    id: u64,
    input: InputUpdate,
    dir_x: i64,
    dir_y: i64,
) -> BulletInfo {
    BulletInfo {
        bullet_id: id,
        shooter_id: input.player_id,
        x: input.x,
        y: input.y,
        angle: input.angle,
        vx: step_of(dir_x),
        vy: step_of(dir_y),
        damage: BULLET_DAMAGE,
        age: 0,
        max_age: BULLET_MAX_AGE,
    }
}

/// `q` is player `p` after an accepted input (which fired when `fire`).
pub open spec fn applied_input(
    p: PlayerInfo,
    q: PlayerInfo,
    input: InputUpdate,
    now_ms: u64,
    fire: bool,
) -> bool {
    &&& q.player_id == p.player_id
    &&& q.addr == p.addr
    &&& q.username@ == p.username@
    &&& q.pos_x == input.x
    &&& q.pos_y == input.y
    &&& q.angle == input.angle
    &&& q.health == p.health
    &&& q.score == p.score
    &&& q.kills == p.kills
    &&& q.deaths == p.deaths
    &&& q.last_seen_ms == now_ms
    &&& q.ammo == if fire {
        (p.ammo - 1) as u8
    } else {
        p.ammo
    }
    &&& q.last_shot_ms == if fire {
        Some(now_ms)
    } else {
        p.last_shot_ms
    }
}

fn axis_step(dir: i64) -> (v: i64)
    requires
        -MAX_STEP <= dir <= MAX_STEP,
    ensures
        v == step_of(dir),
        -MAX_STEP <= v <= MAX_STEP,
{
    if dir >= 0 {
        dir * BULLET_SPEED / STEPS_PER_SECOND
    } else {
        -((-dir) * BULLET_SPEED / STEPS_PER_SECOND)
    }
}

impl ServerState {
    /// Applies a client's claimed position, facing and action. An input for
    /// an unknown player, or whose position is outside the grid or on a wall,
    /// changes nothing. Otherwise the position, facing and activity time are
    /// taken over, and a shot is fired when the player has ammo and has not
    /// fired in the last `SHOT_COOLDOWN_MS`. `(dir_x, dir_y)` is the unit
    /// heading of `input.angle` in thousandths.
    pub fn handle_input(&mut self, input: InputUpdate, dir_x: i64, dir_y: i64, now_ms: u64)
        requires
            old(self).wf(),
            -MAX_STEP <= dir_x <= MAX_STEP,
            -MAX_STEP <= dir_y <= MAX_STEP,
        ensures
            final(self).wf(),
            input_applied(old(self), final(self), input, dir_x, dir_y, now_ms),
    {
        let i = match self.find_player(input.player_id) {
            Some(i) => i,
            None => {
                return ;
            },
        };
        if input.x < 0 || input.y < 0 || input.x / UNITS_PER_CELL >= MAX_SIDE as i64 || input.y
            / UNITS_PER_CELL >= MAX_SIDE as i64 {
            return ;
        }
        let gx = (input.x / UNITS_PER_CELL) as usize;
        let gy = (input.y / UNITS_PER_CELL) as usize;
        if !self.logic_maze.is_walkable(gx, gy) {
            return ;
        }
        let cooled = match self.players[i].last_shot_ms {
            None => true,
            Some(t) => t <= now_ms && now_ms - t >= SHOT_COOLDOWN_MS,
        };
        let fire = input.action == Action::Shoot && self.players[i].ammo > 0 && cooled
            && self.next_bullet_id < u64::MAX;
        let ghost before = self.players@;
        let mut p = self.players.remove(i);
        p.pos_x = input.x;
        p.pos_y = input.y;
        p.angle = input.angle;
        p.last_seen_ms = now_ms;
        if fire {
            p.ammo = p.ammo - 1;
            p.last_shot_ms = Some(now_ms);
        }
        self.players.insert(i, p);
        proof {
            assert forall|k: int| 0 <= k < before.len() && k != i implies self.players@[k]
                == before[k] by {}
            assert forall|a: int, b: int|
                0 <= a < b < self.players@.len() implies self.players@[a].player_id
                < self.players@[b].player_id by {
                assert(self.players@[a].player_id == before[a].player_id);
                assert(self.players@[b].player_id == before[b].player_id);
            }
            assert forall|k: int| 0 <= k < self.players@.len() implies (#[trigger] self.players@[k]).player_id
                < self.next_player_id && player_ok(&self.logic_maze, self.players@[k]) by {
                assert(self.players@[k].player_id == before[k].player_id);
            }
        }
        if fire {
            let bullet = BulletInfo {
                bullet_id: self.next_bullet_id,
                shooter_id: input.player_id,
                x: input.x,
                y: input.y,
                angle: input.angle,
                vx: axis_step(dir_x),
                vy: axis_step(dir_y),
                damage: BULLET_DAMAGE,
                age: 0,
                max_age: BULLET_MAX_AGE,
            };
            self.next_bullet_id = self.next_bullet_id + 1;
            self.bullets.push(bullet);
        }
    }
}

/// `v + d`, or `u32::MAX` when that does not fit.
pub open spec fn sat_add(v: u32, d: u32) -> u32 {
    if v + d <= u32::MAX {
        (v + d) as u32
    } else {
        u32::MAX
    }
}

fn saturating_add_u32(v: u32, d: u32) -> (r: u32)
    ensures
        r == sat_add(v, d),
{
    if v <= u32::MAX - d {
        v + d
    } else {
        u32::MAX
    }
}

/// A projectile one simulation step later.
pub open spec fn advanced(b: BulletInfo) -> BulletInfo {
    BulletInfo { x: (b.x + b.vx) as i64, y: (b.y + b.vy) as i64, age: (b.age + 1) as u32, ..b }
}

/// Player `p` is not the shooter of `b` and is closer to it than `HIT_RADIUS`.
pub open spec fn in_reach(b: BulletInfo, p: PlayerInfo) -> bool {
    &&& p.player_id != b.shooter_id
    &&& (b.x - p.pos_x) * (b.x - p.pos_x) + (b.y - p.pos_y) * (b.y - p.pos_y) < HIT_RADIUS
        * HIT_RADIUS
}

/// Index of the first of the first `n` players within reach of `b`; `n`
/// when there is none.
pub open spec fn first_hit(ps: Seq<PlayerInfo>, b: BulletInfo, n: int) -> int
    decreases n,
{
    if n <= 0 {
        0
    } else {
        let f = first_hit(ps, b, n - 1);
        if f < n - 1 {
            f
        } else if in_reach(b, ps[n - 1]) {
            n - 1
        } else {
            n
        }
    }
}

/// Player `p` after taking `damage`: health floors at zero, and a death is
/// counted when health goes from positive to zero.
pub open spec fn damaged(p: PlayerInfo, damage: u8) -> PlayerInfo {
    PlayerInfo {
        health: if p.health > damage {
            (p.health - damage) as u8
        } else {
            0
        },
        deaths: if p.health > 0 && p.health <= damage {
            sat_add(p.deaths, 1)
        } else {
            p.deaths
        },
        ..p
    }
}

/// What the first pass of a simulation step has produced so far.
pub struct TickOutcome {
    pub players: Seq<PlayerInfo>,
    /// Projectiles that stay in flight, advanced.
    pub kept: Seq<BulletInfo>,
    pub hits: Seq<HitEvent>,
    /// `(victim, killer)` for each player whose health reached zero.
    pub kills: Seq<(u64, u64)>,
}

/// One projectile's step: it moves; on a wall or outside the grid it is
/// dropped; else it strikes the first player in reach and is dropped; else
/// it is dropped when it has reached its maximum age, and kept otherwise.
pub open spec fn step_bullet(m: &Maze, st: TickOutcome, b: BulletInfo) -> TickOutcome {
    let b1 = advanced(b);
    if !on_walkable(m, b1.x, b1.y) {
        st
    } else {
        let j = first_hit(st.players, b1, st.players.len() as int);
        if j < st.players.len() {
            let p = st.players[j];
            let q = damaged(p, b1.damage);
            TickOutcome {
                players: st.players.update(j, q),
                kept: st.kept,
                hits: st.hits.push(
                    HitEvent {
                        shooter_id: b1.shooter_id,
                        victim_id: p.player_id,
                        damage: b1.damage,
                        bullet_id: b1.bullet_id,
                    },
                ),
                kills: if p.health > 0 && q.health == 0 {
                    st.kills.push((p.player_id, b1.shooter_id))
                } else {
                    st.kills
                },
            }
        } else if b1.age >= b1.max_age {
            st
        } else {
            TickOutcome { kept: st.kept.push(b1), ..st }
        }
    }
}

/// The first pass of a simulation step over the projectiles `bs`, in order.
pub open spec fn run_bullets(m: &Maze, ps: Seq<PlayerInfo>, bs: Seq<BulletInfo>) -> TickOutcome
    decreases bs.len(),
{
    if bs.len() == 0 {
        TickOutcome { players: ps, kept: seq![], hits: seq![], kills: seq![] }
    } else {
        step_bullet(m, run_bullets(m, ps, bs.drop_last()), bs.last())
    }
}

/// Player `p` credited with one kill.
pub open spec fn credited(p: PlayerInfo) -> PlayerInfo {
    PlayerInfo { kills: sat_add(p.kills, 1), score: sat_add(p.score, KILL_SCORE), ..p }
}

/// The players after each killer of `kills` is credited, in order.
pub open spec fn award(ps: Seq<PlayerInfo>, kills: Seq<(u64, u64)>) -> Seq<PlayerInfo>
    decreases kills.len(),
{
    if kills.len() == 0 {
        ps
    } else {
        let prev = award(ps, kills.drop_last());
        let killer = kills.last().1;
        Seq::new(
            prev.len(),
            |i: int|
                if prev[i].player_id == killer {
                    credited(prev[i])
                } else {
                    prev[i]
                },
        )
    }
}

/// Player `p` back at `pos`, facing angle zero, with full health and ammo.
pub open spec fn respawned(p: PlayerInfo, pos: (i64, i64)) -> PlayerInfo {
    PlayerInfo {
        pos_x: pos.0,
        pos_y: pos.1,
        angle: 0,
        health: FULL_HEALTH,
        ammo: FULL_AMMO,
        ..p
    }
}

/// The players and the spawn cursor after each victim of `kills` is
/// respawned, in order, at the next spawn cell.
pub open spec fn respawn_all(
    ps: Seq<PlayerInfo>,
    kills: Seq<(u64, u64)>,
    spawns: Seq<(usize, usize)>,
    cursor: int,
) -> (Seq<PlayerInfo>, int)
    decreases kills.len(),
{
    if kills.len() == 0 {
        (ps, cursor)
    } else {
        let (prev, c) = respawn_all(ps, kills.drop_last(), spawns, cursor);
        let victim = kills.last().0;
        let pos = spawn_center(spawns[c]);
        (
            Seq::new(
                prev.len(),
                |i: int|
                    if prev[i].player_id == victim {
                        respawned(prev[i], pos)
                    } else {
                        prev[i]
                    },
            ),
            (c + 1) % (spawns.len() as int),
        )
    }
}

proof fn lemma_first_hit_stable(ps: Seq<PlayerInfo>, b: BulletInfo, k: int, n: int)
    requires
        0 <= k <= n,
        first_hit(ps, b, k) < k,
    ensures
        first_hit(ps, b, n) == first_hit(ps, b, k),
    decreases n,
{
    if n > k {
        lemma_first_hit_stable(ps, b, k, n - 1);
    }
}

/// A coordinate that lies on a level whose sides are at most `MAX_SIDE`.
pub open spec fn coord_ok(v: i64) -> bool {
    0 <= v < MAX_SIDE * UNITS_PER_CELL
}

proof fn lemma_walkable_coords(m: &Maze, x: i64, y: i64)
    requires
        on_walkable(m, x, y),
        m.width <= MAX_SIDE,
        m.height <= MAX_SIDE,
    ensures
        coord_ok(x),
        coord_ok(y),
{
}

/// The index of the first player, in order, within reach of `b`; the
/// number of players when none is.
fn find_hit(ps: &Vec<PlayerInfo>, b: &BulletInfo) -> (r: usize)
    requires
        coord_ok(b.x),
        coord_ok(b.y),
        forall|k: int| 0 <= k < ps@.len() ==> coord_ok((#[trigger] ps@[k]).pos_x) && coord_ok(ps@[k].pos_y),
    ensures
        r == first_hit(ps@, *b, ps@.len() as int),
{
    let mut j: usize = 0;
    while j < ps.len()
        invariant
            coord_ok(b.x),
            coord_ok(b.y),
            forall|k: int| 0 <= k < ps@.len() ==> coord_ok((#[trigger] ps@[k]).pos_x) && coord_ok(ps@[k].pos_y),
            j <= ps@.len(),
            first_hit(ps@, *b, j as int) == j,
        decreases ps@.len() - j,
    {
        let p = &ps[j];
        let dx = b.x - p.pos_x;
        let dy = b.y - p.pos_y;
        assert(0 <= dx * dx <= 65536000 * 65536000) by (nonlinear_arith)
            requires
                -65536000 <= dx <= 65536000,
        ;
        assert(0 <= dy * dy <= 65536000 * 65536000) by (nonlinear_arith)
            requires
                -65536000 <= dy <= 65536000,
        ;
        if p.player_id != b.shooter_id && dx * dx + dy * dy < HIT_RADIUS * HIT_RADIUS {
            proof {
                lemma_first_hit_stable(ps@, *b, j as int + 1, ps@.len() as int);
            }
            return j;
        }
        j += 1;
    }
    j
}

/// Player `id` is the victim of one of the `(victim, killer)` pairs.
pub open spec fn is_victim(kills: Seq<(u64, u64)>, id: u64) -> bool {
    exists|j: int| 0 <= j < kills.len() && #[trigger] kills[j].0 == id
}

/// The first-pass outcome `t` is made of these values.
pub open spec fn outcome_is(
    t: TickOutcome,
    players: Seq<PlayerInfo>,
    kept: Seq<BulletInfo>,
    hits: Seq<HitEvent>,
    kills: Seq<(u64, u64)>,
) -> bool {
    t.players == players && t.kept == kept && t.hits == hits && t.kills == kills
}

impl ServerState {
    /// The first pass of a simulation step: moves every projectile, resolves
    /// wall and player impacts and expiry, and applies damage. Returns the
    /// hits and the `(victim, killer)` pairs.
    fn first_pass(&mut self) -> (r: (Vec<HitEvent>, Vec<(u64, u64)>))
        requires
            old(self).wf(),
        ensures
            outcome_is(
                run_bullets(&old(self).logic_maze, old(self).players@, old(self).bullets@),
                final(self).players@,
                final(self).bullets@,
                r.0@,
                r.1@,
            ),
            final(self).wf_core(),
            forall|k: int|
                0 <= k < final(self).players@.len() && (#[trigger] final(self).players@[k]).health
                    == 0 ==> is_victim(r.1@, final(self).players@[k].player_id),
            same_ids(final(self).players@, old(self).players@),
            final(self).same_level(old(self)),
            final(self).spawn_cursor == old(self).spawn_cursor,
            final(self).next_player_id == old(self).next_player_id,
            final(self).next_bullet_id == old(self).next_bullet_id,
    {
        let ghost s0 = *self;
        let ghost m = self.logic_maze;
        let ghost ps0 = self.players@;
        let ghost bs0 = self.bullets@;
        let mut kept: Vec<BulletInfo> = Vec::new();
        let mut hits: Vec<HitEvent> = Vec::new();
        let mut kills: Vec<(u64, u64)> = Vec::new();
        let n = self.bullets.len();
        let mut i: usize = 0;
        while i < n
            invariant
                s0.wf(),
                m == s0.logic_maze,
                ps0 == s0.players@,
                bs0 == s0.bullets@,
                n == bs0.len(),
                i <= n,
                self.logic_maze == m,
                self.spawns@ == s0.spawns@,
                self.spawn_cursor == s0.spawn_cursor,
                self.next_player_id == s0.next_player_id,
                self.next_bullet_id == s0.next_bullet_id,
                self.bullets@ == bs0,
                outcome_is(
                    run_bullets(&m, ps0, bs0.take(i as int)),
                    self.players@,
                    kept@,
                    hits@,
                    kills@,
                ),
                same_ids(self.players@, ps0),
                forall|k: int| 0 <= k < self.players@.len() ==> (#[trigger] self.players@[k]).addr == ps0[k].addr,
                forall|k: int| 0 <= k < self.players@.len() ==> player_ok(&m, #[trigger] self.players@[k]),
                forall|k: int|
                    0 <= k < self.players@.len() && (#[trigger] self.players@[k]).health == 0
                        ==> is_victim(kills@, self.players@[k].player_id),
                forall|k: int| 0 <= k < kept@.len() ==> bullet_ok(&m, #[trigger] kept@[k]),
                bullet_ids_increasing(kept@),
                forall|k: int, j: int|
                    0 <= k < kept@.len() && i <= j < n ==> kept@[k].bullet_id < bs0[j].bullet_id,
                forall|k: int| 0 <= k < kept@.len() ==> (#[trigger] kept@[k]).bullet_id < s0.next_bullet_id,
            decreases n - i,
        {
            let b = self.bullets[i];
            proof {
                assert(bullet_ok(&m, bs0[i as int]));
                lemma_walkable_coords(&m, b.x, b.y);
                assert(bs0.take(i + 1).drop_last() =~= bs0.take(i as int));
                assert(bs0.take(i + 1).last() == bs0[i as int]);
            }
            let nb = BulletInfo { x: b.x + b.vx, y: b.y + b.vy, age: b.age + 1, ..b };
            assert(nb == advanced(b));
            let on_floor = nb.x >= 0 && nb.y >= 0 && nb.x / UNITS_PER_CELL < MAX_SIDE as i64
                && nb.y / UNITS_PER_CELL < MAX_SIDE as i64 && self.logic_maze.is_walkable(
                (nb.x / UNITS_PER_CELL) as usize,
                (nb.y / UNITS_PER_CELL) as usize,
            );
            if on_floor {
                proof {
                    lemma_walkable_coords(&m, nb.x, nb.y);
                    assert forall|k: int| 0 <= k < self.players@.len() implies coord_ok(
                        (#[trigger] self.players@[k]).pos_x,
                    ) && coord_ok(self.players@[k].pos_y) by {
                        assert(player_ok(&m, self.players@[k]));
                        lemma_walkable_coords(&m, self.players@[k].pos_x, self.players@[k].pos_y);
                    }
                }
                let h = find_hit(&self.players, &nb);
                if h < self.players.len() {
                    let ghost before = self.players@;
                    let mut p = self.players.remove(h);
                    let victim = p.player_id;
                    let was_alive = p.health > 0;
                    if p.health > nb.damage {
                        p.health = p.health - nb.damage;
                    } else {
                        p.health = 0;
                        if was_alive {
                            p.deaths = saturating_add_u32(p.deaths, 1);
                        }
                    }
                    let dead = was_alive && p.health == 0;
                    assert(p == damaged(before[h as int], nb.damage));
                    self.players.insert(h, p);
                    assert(self.players@ =~= before.update(h as int, damaged(before[h as int], nb.damage)));
                    hits.push(
                        HitEvent {
                            shooter_id: nb.shooter_id,
                            victim_id: victim,
                            damage: nb.damage,
                            bullet_id: nb.bullet_id,
                        },
                    );
                    let ghost kills_before = kills@;
                    if dead {
                        kills.push((victim, nb.shooter_id));
                    }
                    proof {
                        assert forall|k: int|
                            0 <= k < self.players@.len() && (#[trigger] self.players@[k]).health
                                == 0 implies is_victim(kills@, self.players@[k].player_id) by {
                            if k == h {
                                if dead {
                                    assert(kills@[kills@.len() - 1].0 == victim);
                                } else {
                                    assert(before[k].health == 0);
                                    let w = choose|w: int|
                                        0 <= w < kills_before.len() && #[trigger] kills_before[w].0
                                            == before[k].player_id;
                                    assert(kills@[w] == kills_before[w]);
                                }
                            } else {
                                assert(self.players@[k] == before[k]);
                                let w = choose|w: int|
                                    0 <= w < kills_before.len() && #[trigger] kills_before[w].0
                                        == before[k].player_id;
                                assert(kills@[w] == kills_before[w]);
                            }
                        }
                        assert forall|k: int| 0 <= k < self.players@.len() implies player_ok(
                            &m,
                            #[trigger] self.players@[k],
                        ) by {
                            if k != h {
                                assert(self.players@[k] == before[k]);
                            }
                        }
                    }
                } else if nb.age >= nb.max_age {
                } else {
                    kept.push(nb);
                    proof {
                        assert forall|k: int| 0 <= k < kept@.len() implies bullet_ok(
                            &m,
                            #[trigger] kept@[k],
                        ) by {}
                    }
                }
            }
            i += 1;
        }
        proof {
            assert(bs0.take(n as int) =~= bs0);
            assert forall|a: int, b: int| 0 <= a < b < self.players@.len() implies self.players@[a].addr
                != self.players@[b].addr by {
                assert(self.players@[a].addr == ps0[a].addr);
                assert(self.players@[b].addr == ps0[b].addr);
            }
        }
        self.bullets = kept;
        (hits, kills)
    }

    /// Credits the killer of each `(victim, killer)` pair, in order.
    fn award_kills(&mut self, kills: &Vec<(u64, u64)>)
        requires
            old(self).wf_core(),
        ensures
            final(self).players@ == award(old(self).players@, kills@),
            final(self).wf_core(),
            same_ids(final(self).players@, old(self).players@),
            final(self).same_level(old(self)),
            final(self).bullets@ == old(self).bullets@,
            final(self).spawn_cursor == old(self).spawn_cursor,
            final(self).next_player_id == old(self).next_player_id,
            final(self).next_bullet_id == old(self).next_bullet_id,
    {
        let ghost s0 = *self;
        let mut k: usize = 0;
        while k < kills.len()
            invariant
                s0.wf_core(),
                k <= kills@.len(),
                self.players@ == award(s0.players@, kills@.take(k as int)),
                self.wf_core(),
                same_ids(self.players@, s0.players@),
                self.same_level(&s0),
                self.bullets@ == s0.bullets@,
                self.spawn_cursor == s0.spawn_cursor,
                self.next_player_id == s0.next_player_id,
                self.next_bullet_id == s0.next_bullet_id,
            decreases kills@.len() - k,
        {
            let killer = kills[k].1;
            let ghost prev = self.players@;
            let mut j: usize = 0;
            while j < self.players.len()
                invariant
                    self.wf_core(),
                    prev.len() == self.players@.len(),
                    j <= prev.len(),
                    same_ids(self.players@, s0.players@),
                    self.same_level(&s0),
                    self.bullets@ == s0.bullets@,
                    self.spawn_cursor == s0.spawn_cursor,
                    self.next_player_id == s0.next_player_id,
                    self.next_bullet_id == s0.next_bullet_id,
                    forall|t: int|
                        0 <= t < j ==> #[trigger] self.players@[t] == if prev[t].player_id == killer {
                            credited(prev[t])
                        } else {
                            prev[t]
                        },
                    forall|t: int| j <= t < prev.len() ==> #[trigger] self.players@[t] == prev[t],
                decreases prev.len() - j,
            {
                if self.players[j].player_id == killer {
                    let ghost before = self.players@;
                    let mut p = self.players.remove(j);
                    p.kills = saturating_add_u32(p.kills, 1);
                    p.score = saturating_add_u32(p.score, KILL_SCORE);
                    assert(p == credited(before[j as int]));
                    self.players.insert(j, p);
                    proof {
                        assert forall|t: int| 0 <= t < self.players@.len() && t != j implies #[trigger] self.players@[t]
                            == before[t] by {}
                        assert forall|a: int, b: int|
                            0 <= a < b < self.players@.len() implies self.players@[a].player_id
                            < self.players@[b].player_id by {
                            assert(self.players@[a].player_id == before[a].player_id);
                            assert(self.players@[b].player_id == before[b].player_id);
                        }
                        assert forall|t: int| 0 <= t < self.players@.len() implies (#[trigger] self.players@[t]).player_id
                            < self.next_player_id && player_ok(&self.logic_maze, self.players@[t]) by {
                            assert(self.players@[t].player_id == before[t].player_id);
                        }
                    }
                }
                j += 1;
            }
            proof {
                let ks = kills@.take(k + 1);
                assert(ks.drop_last() =~= kills@.take(k as int));
                assert(ks.last() == kills@[k as int]);
                assert(self.players@ =~= award(s0.players@, ks));
            }
            k += 1;
        }
        proof {
            assert(kills@.take(kills@.len() as int) =~= kills@);
        }
    }

    /// Respawns the victim of each `(victim, killer)` pair, in order, at the
    /// next spawn cell.
    fn respawn_victims(&mut self, kills: &Vec<(u64, u64)>)
        requires
            old(self).wf_core(),
        ensures
            (final(self).players@, final(self).spawn_cursor as int) == respawn_all(
                old(self).players@,
                kills@,
                old(self).spawns@,
                old(self).spawn_cursor as int,
            ),
            final(self).wf_core(),
            same_ids(final(self).players@, old(self).players@),
            final(self).same_level(old(self)),
            final(self).bullets@ == old(self).bullets@,
            final(self).next_player_id == old(self).next_player_id,
            final(self).next_bullet_id == old(self).next_bullet_id,
    {
        let ghost s0 = *self;
        let mut k: usize = 0;
        while k < kills.len()
            invariant
                s0.wf_core(),
                k <= kills@.len(),
                (self.players@, self.spawn_cursor as int) == respawn_all(
                    s0.players@,
                    kills@.take(k as int),
                    s0.spawns@,
                    s0.spawn_cursor as int,
                ),
                self.wf_core(),
                same_ids(self.players@, s0.players@),
                self.same_level(&s0),
                self.bullets@ == s0.bullets@,
                self.next_player_id == s0.next_player_id,
                self.next_bullet_id == s0.next_bullet_id,
            decreases kills@.len() - k,
        {
            let victim = kills[k].0;
            let ghost c = self.spawn_cursor as int;
            let pos = self.next_spawn();
            let ghost prev = self.players@;
            let mut j: usize = 0;
            while j < self.players.len()
                invariant
                    self.wf_core(),
                    on_walkable(&self.logic_maze, pos.0, pos.1),
                    prev.len() == self.players@.len(),
                    j <= prev.len(),
                    same_ids(self.players@, s0.players@),
                    self.same_level(&s0),
                    self.bullets@ == s0.bullets@,
                    self.spawn_cursor == (c + 1) % (s0.spawns@.len() as int),
                    self.next_player_id == s0.next_player_id,
                    self.next_bullet_id == s0.next_bullet_id,
                    forall|t: int|
                        0 <= t < j ==> #[trigger] self.players@[t] == if prev[t].player_id == victim {
                            respawned(prev[t], pos)
                        } else {
                            prev[t]
                        },
                    forall|t: int| j <= t < prev.len() ==> #[trigger] self.players@[t] == prev[t],
                decreases prev.len() - j,
            {
                if self.players[j].player_id == victim {
                    let ghost before = self.players@;
                    let mut p = self.players.remove(j);
                    p.pos_x = pos.0;
                    p.pos_y = pos.1;
                    p.angle = 0;
                    p.health = FULL_HEALTH;
                    p.ammo = FULL_AMMO;
                    assert(p == respawned(before[j as int], pos));
                    self.players.insert(j, p);
                    proof {
                        assert forall|t: int| 0 <= t < self.players@.len() && t != j implies #[trigger] self.players@[t]
                            == before[t] by {}
                        assert forall|a: int, b: int|
                            0 <= a < b < self.players@.len() implies self.players@[a].player_id
                            < self.players@[b].player_id by {
                            assert(self.players@[a].player_id == before[a].player_id);
                            assert(self.players@[b].player_id == before[b].player_id);
                        }
                        assert forall|t: int| 0 <= t < self.players@.len() implies (#[trigger] self.players@[t]).player_id
                            < self.next_player_id && player_ok(&self.logic_maze, self.players@[t]) by {
                            assert(self.players@[t].player_id == before[t].player_id);
                        }
                    }
                }
                j += 1;
            }
            proof {
                let ks = kills@.take(k + 1);
                assert(ks.drop_last() =~= kills@.take(k as int));
                assert(ks.last() == kills@[k as int]);
                assert(self.players@ =~= respawn_all(s0.players@, ks, s0.spawns@, s0.spawn_cursor as int).0);
            }
            k += 1;
        }
        proof {
            assert(kills@.take(kills@.len() as int) =~= kills@);
        }
    }

    /// One simulation step. Each projectile moves by its per-step
    /// displacement and ages by one step; one that lands on a wall or outside
    /// the grid is dropped; else the first player in reach (other than its
    /// shooter) takes its damage and it is dropped; else it is dropped once
    /// it reaches its maximum age. Then every killer is credited and every
    /// player whose health reached zero is respawned at the next spawn cell.
    /// Returns the hits and the deaths, in order.
    pub fn update_bullets(&mut self) -> (r: (Vec<HitEvent>, Vec<DeathEvent>))
        requires
            old(self).wf(),
        ensures
            final(self).wf(),
            ({
                let t = run_bullets(&old(self).logic_maze, old(self).players@, old(self).bullets@);
                &&& final(self).bullets@ == t.kept
                &&& r.0@ == t.hits
                &&& r.1@.len() == t.kills.len()
                &&& forall|k: int|
                    0 <= k < r.1@.len() ==> (#[trigger] r.1@[k]).victim_id == t.kills[k].0
                        && r.1@[k].killer_id == t.kills[k].1 && r.1@[k].weapon@ == "Laser"@
                &&& (final(self).players@, final(self).spawn_cursor as int) == respawn_all(
                    award(t.players, t.kills),
                    t.kills,
                    old(self).spawns@,
                    old(self).spawn_cursor as int,
                )
            }),
            same_ids(final(self).players@, old(self).players@),
            final(self).same_level(old(self)),
            final(self).next_player_id == old(self).next_player_id,
            final(self).next_bullet_id == old(self).next_bullet_id,
    {
        let ghost s0 = *self;
        let (hits, kills) = self.first_pass();
        let ghost s1 = *self;
        self.award_kills(&kills);
        self.respawn_victims(&kills);
        proof {
            crate::laws::lemma_victims_respawned(
                s1.players@,
                kills@,
                s0.spawns@,
                s0.spawn_cursor as int,
            );
            assert forall|k: int| 0 <= k < self.players@.len() implies (
            #[trigger] self.players@[k]).health > 0 by {
                if is_victim(kills@, s1.players@[k].player_id) {
                    let j = choose|j: int|
                        0 <= j < kills@.len() && #[trigger] kills@[j].0 == s1.players@[k].player_id;
                    assert(crate::laws::back_at_spawn(self.players@[k], s0.spawns@));
                } else {
                    assert(s1.players@[k].health != 0);
                }
            }
        }
        let mut deaths: Vec<DeathEvent> = Vec::new();
        let mut k: usize = 0;
        while k < kills.len()
            invariant
                k <= kills@.len(),
                deaths@.len() == k,
                forall|t: int|
                    0 <= t < k ==> (#[trigger] deaths@[t]).victim_id == kills@[t].0
                        && deaths@[t].killer_id == kills@[t].1 && deaths@[t].weapon@ == "Laser"@,
            decreases kills@.len() - k,
        {
            let (victim, killer) = kills[k];
            deaths.push(
                DeathEvent { victim_id: victim, killer_id: killer, weapon: "Laser".to_string() },
            );
            k += 1;
        }
        (hits, deaths)
    }
}

/// The level that a requested id selects: ids 1 to 5 name a level, any
/// other id selects the first.
pub open spec fn level_for(level_id: u32) -> u8 {
    if 1 <= level_id <= 5 {
        level_id as u8
    } else {
        1
    }
}

/// A player as it appears in a snapshot.
pub open spec fn state_of(p: PlayerInfo, s: PlayerState) -> bool {
    &&& s.player_id == p.player_id
    &&& s.username@ == p.username@
    &&& s.x == p.pos_x
    &&& s.y == p.pos_y
    &&& s.angle == p.angle
    &&& s.health == p.health
    &&& s.score == p.score
    &&& s.ammo == p.ammo
    &&& s.kills == p.kills
    &&& s.deaths == p.deaths
}

/// A projectile as it appears in a snapshot.
pub open spec fn wire_bullet(b: BulletInfo) -> Bullet {
    Bullet {
        bullet_id: b.bullet_id,
        shooter_id: b.shooter_id,
        x: b.x,
        y: b.y,
        angle: b.angle,
        speed: (BULLET_SPEED * UNITS_PER_CELL) as i64,
        damage: b.damage,
        lifetime: b.age,
    }
}

proof fn lemma_mod_step(j: int, l: int)
    requires
        0 <= j,
        0 < l,
    ensures
        (j + 1) % l == if j % l + 1 == l {
            0
        } else {
            j % l + 1
        },
        0 <= j % l < l,
{
    vstd::arithmetic::div_mod::lemma_fundamental_div_mod(j, l);
    vstd::arithmetic::div_mod::lemma_mod_bound(j, l);
    assert(l * (j / l) == (j / l) * l) by (nonlinear_arith);
    if j % l + 1 == l {
        assert(j + 1 == (j / l + 1) * l + 0) by (nonlinear_arith)
            requires
                j == l * (j / l) + (j % l),
                j % l + 1 == l,
        ;
        vstd::arithmetic::div_mod::lemma_fundamental_div_mod_converse(j + 1, l, j / l + 1, 0);
    } else {
        vstd::arithmetic::div_mod::lemma_fundamental_div_mod_converse(
            j + 1,
            l,
            j / l,
            j % l + 1,
        );
    }
}

impl ServerState {
    /// Switches to the level that `level_id` selects: a fresh spawn list with
    /// the cursor at its start, no projectiles, and every player moved, in
    /// order, to the next spawn cell with full health and ammo, facing angle
    /// zero. Returns the level-change notice for all clients, which carries
    /// `LEVEL_CHANGE_ID` and the new level.
    pub fn change_level(&mut self, level_id: u32) -> (r: JoinAccept)
        requires
            old(self).wf(),
        ensures
            final(self).wf(),
            level_changed(old(self), final(self), level_id, r),
    {
        let ghost s0 = *self;
        let level: u8 = if level_id >= 1 && level_id <= 5 {
            level_id as u8
        } else {
            1
        };
        let maze = Maze::load_level(level);
        let spawns = maze.spawn_points(SPAWN_COUNT);
        proof {
            assert(maze.walkable_at(START_X as int, START_Y as int));
            assert(has_walkable(&maze));
            lemma_spawn_list_walkable(&maze);
            assert(spawns@ =~= spawn_list(&maze));
        }
        self.logic_maze = maze;
        self.spawns = spawns;
        self.spawn_cursor = 0;
        self.bullets = Vec::new();
        let n = self.players.len();
        let l = self.spawns.len();
        let mut j: usize = 0;
        while j < n
            invariant
                s0.wf(),
                n == s0.players@.len(),
                l == self.spawns@.len(),
                l > 0,
                j <= n,
                self.logic_maze.wf(),
                ({
                    let (id, w, h, max_players) = level_shape(level_for(level_id));
                    shaped(&self.logic_maze, id, w, h, max_players)
                }),
                spawns_reachable(&self.logic_maze),
                self.logic_maze.name@ == level_name(level_for(level_id)),
                level_for(level_id) != 4 ==> forall|x: int, y: int|
                    self.logic_maze.in_bounds(x, y) ==> #[trigger] self.logic_maze.cell(x, y)
                        == generated_cell(level_for(level_id), x, y),
                self.spawns@ == spawn_list(&self.logic_maze),
                1 <= self.logic_maze.width <= MAX_SIDE,
                1 <= self.logic_maze.height <= MAX_SIDE,
                forall|i: int|
                    0 <= i < self.spawns@.len() ==> self.logic_maze.walkable_at(
                        (#[trigger] self.spawns@[i]).0 as int,
                        self.spawns@[i].1 as int,
                    ),
                self.spawn_cursor == j % l,
                self.players@.len() == n,
                self.bullets@.len() == 0,
                self.next_player_id == s0.next_player_id,
                self.next_bullet_id == s0.next_bullet_id,
                forall|k: int|
                    0 <= k < j ==> #[trigger] self.players@[k] == respawned(
                        s0.players@[k],
                        spawn_center(self.spawns@[k % (l as int)]),
                    ),
                forall|k: int| j <= k < n ==> #[trigger] self.players@[k] == s0.players@[k],
            decreases n - j,
        {
            proof {
                lemma_mod_step(j as int, l as int);
            }
            let (sx, sy) = self.spawns[self.spawn_cursor];
            proof {
                assert(self.logic_maze.walkable_at(sx as int, sy as int));
                lemma_center_cell((sx, sy));
            }
            self.spawn_cursor = if self.spawn_cursor + 1 == l {
                0
            } else {
                self.spawn_cursor + 1
            };
            let ghost before = self.players@;
            let mut p = self.players.remove(j);
            p.pos_x = (sx as i64) * UNITS_PER_CELL + UNITS_PER_CELL / 2;
            p.pos_y = (sy as i64) * UNITS_PER_CELL + UNITS_PER_CELL / 2;
            p.angle = 0;
            p.health = FULL_HEALTH;
            p.ammo = FULL_AMMO;
            self.players.insert(j, p);
            proof {
                assert forall|k: int| 0 <= k < n && k != j implies #[trigger] self.players@[k]
                    == before[k] by {}
            }
            j += 1;
        }
        proof {
            assert forall|a: int, b: int|
                0 <= a < b < self.players@.len() implies self.players@[a].player_id
                < self.players@[b].player_id by {
                assert(self.players@[a].player_id == s0.players@[a].player_id);
                assert(self.players@[b].player_id == s0.players@[b].player_id);
            }
            assert forall|k: int| 0 <= k < self.players@.len() implies (#[trigger] self.players@[k]).player_id
                < self.next_player_id && player_ok(&self.logic_maze, self.players@[k]) by {
                assert(self.players@[k].player_id == s0.players@[k].player_id);
                let c = self.spawns@[k % (l as int)];
                vstd::arithmetic::div_mod::lemma_mod_bound(k, l as int);
                assert(self.logic_maze.walkable_at(c.0 as int, c.1 as int));
                lemma_center_cell(c);
            }
        }
        JoinAccept { player_id: LEVEL_CHANGE_ID, level: self.wire_level() }
    }

    /// The world as clients see it at `now_ms`: every player and every
    /// projectile, in order.
    pub fn snapshot(&self, now_ms: u64) -> (snap: Snapshot)
        ensures
            snap.server_time_ms == now_ms,
            snap.players@.len() == self.players@.len(),
            forall|k: int|
                0 <= k < snap.players@.len() ==> state_of(
                    self.players@[k],
                    #[trigger] snap.players@[k],
                ),
            snap.bullets@.len() == self.bullets@.len(),
            forall|k: int|
                0 <= k < snap.bullets@.len() ==> #[trigger] snap.bullets@[k] == wire_bullet(
                    self.bullets@[k],
                ),
    {
        let mut players: Vec<PlayerState> = Vec::new();
        let mut k: usize = 0;
        while k < self.players.len()
            invariant
                k <= self.players@.len(),
                players@.len() == k,
                forall|t: int| 0 <= t < k ==> state_of(self.players@[t], #[trigger] players@[t]),
            decreases self.players@.len() - k,
        {
            let p = &self.players[k];
            players.push(
                PlayerState {
                    player_id: p.player_id,
                    username: p.username.clone(),
                    x: p.pos_x,
                    y: p.pos_y,
                    angle: p.angle,
                    health: p.health,
                    score: p.score,
                    ammo: p.ammo,
                    kills: p.kills,
                    deaths: p.deaths,
                },
            );
            k += 1;
        }
        let mut bullets: Vec<Bullet> = Vec::new();
        let mut k: usize = 0;
        while k < self.bullets.len()
            invariant
                k <= self.bullets@.len(),
                bullets@.len() == k,
                forall|t: int| 0 <= t < k ==> #[trigger] bullets@[t] == wire_bullet(self.bullets@[t]),
            decreases self.bullets@.len() - k,
        {
            let b = self.bullets[k];
            bullets.push(
                Bullet {
                    bullet_id: b.bullet_id,
                    shooter_id: b.shooter_id,
                    x: b.x,
                    y: b.y,
                    angle: b.angle,
                    speed: BULLET_SPEED * UNITS_PER_CELL,
                    damage: b.damage,
                    lifetime: b.age,
                },
            );
            k += 1;
        }
        Snapshot { server_time_ms: now_ms, players, bullets }
    }
}

} // verus!
