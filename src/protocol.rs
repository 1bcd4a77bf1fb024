//! The messages exchanged between clients and the server. Positions are in
//! thousandths of a cell and angles in thousandths of a radian.
use vstd::prelude::*;
use crate::maze::{Cell, Maze};

verus! {

/// A player action carried by an input message.
#[derive(Debug, Clone, Copy, PartialEq, Eq, Structural, Hash)]
pub enum Action {
    /// No action.
    Idle,
    Move,
    Shoot,
    Ping,
    SelectLevel,
}

/// A player as sent in a snapshot.
#[derive(Debug, Clone)]
pub struct PlayerState {
    pub player_id: u64,
    pub username: String,
    pub x: i64,
    pub y: i64,
    pub angle: i64,
    pub health: u8,
    pub score: u32,
    pub ammo: u8,
    pub kills: u32,
    pub deaths: u32,
}

/// A projectile as sent in a snapshot. `speed` is in thousandths of a cell
/// per second, `lifetime` in simulation steps.
#[derive(Debug, Clone, Copy)]
pub struct Bullet {
    pub bullet_id: u64,
    pub shooter_id: u64,
    pub x: i64,
    pub y: i64,
    pub angle: i64,
    pub speed: i64,
    pub damage: u8,
    pub lifetime: u32,
}

/// One cell of a level on the wire: a wall has all four sides closed.
#[derive(Debug, Clone, Copy, PartialEq, Eq, Structural)]
pub struct MazeCell {
    pub wall_north: bool,
    pub wall_south: bool,
    pub wall_east: bool,
    pub wall_west: bool,
}

/// A level on the wire: its cells in row-major order.
#[derive(Debug, Clone)]
pub struct MazeLevel {
    pub level_id: u32,
    pub width: u32,
    pub height: u32,
    pub cells: Vec<MazeCell>,
    pub name: String,
    pub description: String,
}

/// The levels a client may select.
#[derive(Debug)]
pub struct LevelList {
    pub levels: Vec<LevelInfo>,
}

/// A selectable level.
#[derive(Debug)]
pub struct LevelInfo {
    pub level_id: u32,
    pub name: String,
    pub description: String,
    pub max_players: u8,
    pub size: (u32, u32),
}

/// A client asks to join under a name.
#[derive(Debug, Clone)]
pub struct JoinRequest {
    pub username: String,
}

/// The server accepts a join (`player_id` > 0), or announces a level change
/// to everyone (`player_id` == 0).
#[derive(Debug, Clone)]
pub struct JoinAccept {
    pub player_id: u64,
    pub level: MazeLevel,
}

/// A client's claimed position, facing and action.
#[derive(Debug, Clone, Copy)]
pub struct InputUpdate {
    pub player_id: u64,
    pub x: i64,
    pub y: i64,
    pub angle: i64,
    pub action: Action,
}

/// A player leaves, or has left.
#[derive(Debug, Clone, Copy)]
pub struct LeaveNotice {
    pub player_id: u64,
}

#[derive(Debug, Clone, Copy)]
pub struct Ping {
    pub nonce: u64,
}

#[derive(Debug, Clone, Copy)]
pub struct Pong {
    pub nonce: u64,
}

/// The full world state at one moment.
#[derive(Debug, Clone)]
pub struct Snapshot {
    pub server_time_ms: u64,
    pub players: Vec<PlayerState>,
    pub bullets: Vec<Bullet>,
}

/// A projectile struck a player.
#[derive(Debug, Clone, Copy, PartialEq, Eq, Structural)]
pub struct HitEvent {
    pub shooter_id: u64,
    pub victim_id: u64,
    pub damage: u8,
    pub bullet_id: u64,
}

/// A player's health reached zero.
#[derive(Debug, Clone)]
pub struct DeathEvent {
    pub victim_id: u64,
    pub killer_id: u64,
    pub weapon: String,
}

/// A player came back at a spawn cell.
#[derive(Debug, Clone, Copy)]
pub struct RespawnEvent {
    pub player_id: u64,
    pub x: i64,
    pub y: i64,
    pub health: u8,
    pub ammo: u8,
}

/// A client asks for a level.
#[derive(Debug, Clone, Copy)]
pub struct LevelSelection {
    pub player_id: u64,
    pub level_id: u32,
}

/// Every message a client sends.
#[derive(Debug, Clone)]
pub enum ClientToServer {
    Join(JoinRequest),
    Input(InputUpdate),
    Leave(LeaveNotice),
    Ping(Ping),
    SelectLevel(LevelSelection),
}

/// Every message the server sends.
#[derive(Debug)]
pub enum ServerToClient {
    Accept(JoinAccept),
    Snapshot(Snapshot),
    PlayerLeft(LeaveNotice),
    Pong(Pong),
    Hit(HitEvent),
    Death(DeathEvent),
    Respawn(RespawnEvent),
    LevelList(LevelList),
    Error { message: String },
}

/// The wire form of a cell: closed on every side exactly when it is a wall.
pub open spec fn wire_cell(c: Cell) -> MazeCell {
    let w = c == Cell::Wall;
    MazeCell { wall_north: w, wall_south: w, wall_east: w, wall_west: w }
}

/// `wire` is the wire form of `m` under the id `level_id`: cell `k` of the
/// wire holds column `k % width`, row `k / width`.
pub open spec fn is_wire_of(wire: &MazeLevel, level_id: u32, m: &Maze) -> bool {
    &&& wire.level_id == level_id
    &&& wire.width == m.width
    &&& wire.height == m.height
    &&& wire.cells@.len() == m.width * m.height
    &&& forall|k: int|
        0 <= k < wire.cells@.len() ==> #[trigger] wire.cells@[k] == wire_cell(
            m.cell(k % (m.width as int), k / (m.width as int)),
        )
    &&& wire.name@ == m.name@
    &&& wire.description@ == m.description@
}

/// The wire form of a level: walls closed on all four sides, every other
/// cell open.
pub fn maze_to_protocol(level_id: u32, m: &Maze) -> (wire: MazeLevel)
    requires
        m.wf(),
        m.width <= u32::MAX,
        m.height <= u32::MAX,
    ensures
        is_wire_of(&wire, level_id, m),
{
    let ghost w = m.width as int;
    let mut cells: Vec<MazeCell> = Vec::new();
    let mut y: usize = 0;
    while y < m.height
        invariant
            m.wf(),
            w == m.width,
            y <= m.height,
            cells@.len() == y * w,
            forall|k: int|
                0 <= k < cells@.len() ==> #[trigger] cells@[k] == wire_cell(m.cell(k % w, k / w)),
        decreases m.height - y,
    {
        let mut x: usize = 0;
        while x < m.width
            invariant
                m.wf(),
                w == m.width,
                y < m.height,
                x <= m.width,
                cells@.len() == y * w + x,
                forall|k: int|
                    0 <= k < cells@.len() ==> #[trigger] cells@[k] == wire_cell(
                        m.cell(k % w, k / w),
                    ),
            decreases m.width - x,
        {
            let is_wall = m.get(x, y) == Cell::Wall;
            proof {
                vstd::arithmetic::div_mod::lemma_fundamental_div_mod_converse(
                    y * w + x,
                    w,
                    y as int,
                    x as int,
                );
            }
            cells.push(
                MazeCell {
                    wall_north: is_wall,
                    wall_south: is_wall,
                    wall_east: is_wall,
                    wall_west: is_wall,
                },
            );
            x += 1;
        }
        assert((y + 1) * w == y * w + w) by (nonlinear_arith);
        y += 1;
    }
    assert(m.height * w == w * m.height) by (nonlinear_arith);
    MazeLevel {
        level_id,
        width: m.width as u32,
        height: m.height as u32,
        cells,
        name: m.name.clone(),
        description: m.description.clone(),
    }
}

} // verus!
