use maze_war::maze::Maze;
use maze_war::protocol::{
    Action, ClientToServer, InputUpdate, JoinRequest, LeaveNotice, LevelSelection, Ping,
    ServerToClient,
};
use maze_war::server::{BulletInfo, Endpoint, ServerState, LEVEL_CHANGE_ID};

fn addr(port: u16) -> Endpoint {
    Endpoint { ip: 0x7f00_0001, port }
}

fn arena() -> ServerState {
    ServerState::new(Maze::load_level(1))
}

fn input(player_id: u64, x: i64, y: i64, angle: i64, action: Action) -> InputUpdate {
    InputUpdate { player_id, x, y, angle, action }
}

fn bullet(id: u64, shooter: u64, x: i64, y: i64, vx: i64, vy: i64) -> BulletInfo {
    BulletInfo {
        bullet_id: id,
        shooter_id: shooter,
        x,
        y,
        angle: 0,
        vx,
        vy,
        damage: 25,
        age: 0,
        max_age: 180,
    }
}

#[test]
fn two_joins_get_ids_one_and_two() {
    let mut st = arena();
    let (a, alice) = st.register_player(addr(1000), "alice".to_string(), 10);
    let (b, bob) = st.register_player(addr(1001), "bob".to_string(), 20);
    assert_eq!((a, b), (1, 2));
    assert_eq!(alice.username, "alice");
    assert_eq!((alice.pos_x, alice.pos_y), (2500, 2500));
    assert_eq!((bob.pos_x, bob.pos_y), (10500, 2500));
    assert_eq!((bob.health, bob.ammo, bob.angle), (100, 30, 0));
    let snap = st.snapshot(123);
    assert_eq!(snap.server_time_ms, 123);
    assert_eq!(snap.players.len(), 2);
    assert_eq!(snap.players[0].player_id, 1);
    assert_eq!(snap.players[1].player_id, 2);
    assert_eq!(snap.players[1].username, "bob");
    assert!(snap.bullets.is_empty());
    assert_eq!(st.recipients(), vec![addr(1000), addr(1001)]);
}

#[test]
fn ids_are_not_reused_after_leave() {
    let mut st = arena();
    let (a, _) = st.register_player(addr(1), "a".to_string(), 0);
    assert_eq!(st.unregister(a), Some(addr(1)));
    assert_eq!(st.unregister(a), None);
    let (b, _) = st.register_player(addr(2), "b".to_string(), 0);
    assert_eq!(b, 2);
    assert_eq!(st.players.len(), 1);
    assert_eq!(st.find_player(2), Some(0));
    assert_eq!(st.find_player(1), None);
}

#[test]
fn second_shot_within_cooldown_is_dropped() {
    let mut st = arena();
    let (a, _) = st.register_player(addr(1), "alice".to_string(), 0);
    st.handle_input(input(a, 2500, 2500, 0, Action::Shoot), 1000, 0, 1000);
    st.handle_input(input(a, 2500, 2500, 0, Action::Shoot), 1000, 0, 1300);
    assert_eq!(st.bullets.len(), 1);
    assert_eq!(st.players[0].ammo, 29);
    assert_eq!(st.players[0].last_shot_ms, Some(1000));
    let b = st.bullets[0];
    assert_eq!((b.bullet_id, b.shooter_id, b.x, b.y), (1, a, 2500, 2500));
    assert_eq!((b.vx, b.vy, b.damage, b.age, b.max_age), (416, 0, 25, 0, 180));
    st.handle_input(input(a, 2500, 2500, 0, Action::Shoot), -1000, 0, 1500);
    assert_eq!(st.bullets.len(), 2);
    assert_eq!(st.bullets[1].bullet_id, 2);
    assert_eq!(st.bullets[1].vx, -416);
    assert_eq!(st.players[0].ammo, 28);
}

#[test]
fn no_shot_without_ammo() {
    let mut st = arena();
    let (a, _) = st.register_player(addr(1), "alice".to_string(), 0);
    st.players[0].ammo = 0;
    st.handle_input(input(a, 2500, 2500, 0, Action::Shoot), 1000, 0, 5000);
    assert!(st.bullets.is_empty());
    assert_eq!(st.next_bullet_id, 1);
}

#[test]
fn move_onto_wall_is_rejected_whole() {
    let mut st = arena();
    let (a, _) = st.register_player(addr(1), "alice".to_string(), 0);
    st.handle_input(input(a, 500, 500, 700, Action::Shoot), 1000, 0, 9000);
    st.handle_input(input(a, -10, 2500, 700, Action::Move), 1000, 0, 9000);
    st.handle_input(input(a, 20500, 2500, 700, Action::Move), 1000, 0, 9000);
    let p = &st.players[0];
    assert_eq!((p.pos_x, p.pos_y, p.angle, p.last_seen_ms), (2500, 2500, 0, 0));
    assert!(st.bullets.is_empty());
    assert_eq!(p.ammo, 30);
}

#[test]
fn move_onto_path_is_accepted() {
    let mut st = arena();
    let (a, _) = st.register_player(addr(1), "alice".to_string(), 0);
    st.handle_input(input(a, 3500, 1500, 1570, Action::Move), 0, 1000, 77);
    let p = &st.players[0];
    assert_eq!((p.pos_x, p.pos_y, p.angle, p.last_seen_ms), (3500, 1500, 1570, 77));
    assert!(st.logic_maze.is_walkable(3, 1));
    st.handle_input(input(99, 4500, 1500, 0, Action::Move), 0, 1000, 78);
    assert_eq!(st.players[0].pos_x, 3500);
}

#[test]
fn hit_then_kill_emits_one_death_and_respawns() {
    let mut st = arena();
    let (a, _) = st.register_player(addr(1), "alice".to_string(), 0);
    let (b, _) = st.register_player(addr(2), "bob".to_string(), 0);
    st.players[1].health = 30;
    st.bullets.push(bullet(1, a, 10100, 2500, 100, 0));
    st.next_bullet_id = 2;
    let (hits, deaths) = st.update_bullets();
    assert_eq!(hits.len(), 1);
    assert_eq!((hits[0].shooter_id, hits[0].victim_id, hits[0].damage, hits[0].bullet_id), (a, b, 25, 1));
    assert!(deaths.is_empty());
    assert_eq!(st.players[1].health, 5);
    assert!(st.bullets.is_empty());

    st.bullets.push(bullet(2, a, 10100, 2500, 100, 0));
    st.next_bullet_id = 3;
    let (hits, deaths) = st.update_bullets();
    assert_eq!(hits.len(), 1);
    assert_eq!(deaths.len(), 1);
    assert_eq!((deaths[0].victim_id, deaths[0].killer_id), (b, a));
    assert_eq!(deaths[0].weapon, "Laser");
    let bob = &st.players[1];
    assert_eq!((bob.health, bob.ammo, bob.deaths, bob.angle), (100, 30, 1, 0));
    assert_eq!((bob.pos_x, bob.pos_y), (17500, 2500));
    assert_eq!((st.players[0].kills, st.players[0].score), (1, 100));
}

#[test]
fn shooter_is_never_hit_by_own_bullet() {
    let mut st = arena();
    let (a, _) = st.register_player(addr(1), "alice".to_string(), 0);
    st.bullets.push(bullet(1, a, 2400, 2500, 100, 0));
    st.next_bullet_id = 2;
    let (hits, _) = st.update_bullets();
    assert!(hits.is_empty());
    assert_eq!(st.bullets.len(), 1);
    assert_eq!((st.bullets[0].x, st.bullets[0].age), (2500, 1));
}

#[test]
fn bullet_into_wall_is_removed_and_stays_gone() {
    let mut st = arena();
    let (a, _) = st.register_player(addr(1), "alice".to_string(), 0);
    st.bullets.push(bullet(1, a, 1500, 2500, -1000, 0));
    st.bullets.push(bullet(2, a, 1500, 5500, 0, 10));
    st.next_bullet_id = 3;
    let (hits, deaths) = st.update_bullets();
    assert!(hits.is_empty() && deaths.is_empty());
    assert_eq!(st.bullets.len(), 1);
    assert_eq!(st.bullets[0].bullet_id, 2);
    st.handle_input(input(a, 2500, 2500, 0, Action::Shoot), 1000, 0, 10_000);
    st.update_bullets();
    let snap = st.snapshot(0);
    assert!(snap.bullets.iter().all(|b| b.bullet_id != 1));
    assert_eq!(snap.bullets.len(), 2);
    assert_eq!(snap.bullets[1].bullet_id, 3);
    assert_eq!(snap.bullets[1].speed, 25_000);
}

#[test]
fn bullet_expires_at_max_age() {
    let mut st = arena();
    let (a, _) = st.register_player(addr(1), "alice".to_string(), 0);
    let mut b = bullet(1, a, 5500, 5500, 0, 0);
    b.age = 179;
    st.bullets.push(b);
    st.next_bullet_id = 2;
    st.update_bullets();
    assert!(st.bullets.is_empty());
}

#[test]
fn level_change_resets_world() {
    let mut st = arena();
    let (a, _) = st.register_player(addr(1), "alice".to_string(), 0);
    st.register_player(addr(2), "bob".to_string(), 0);
    st.handle_input(input(a, 3500, 1500, 0, Action::Shoot), 1000, 0, 10_000);
    st.players[0].health = 40;
    let notice = st.change_level(3);
    assert_eq!(notice.player_id, LEVEL_CHANGE_ID);
    assert_eq!(notice.level.level_id, 3);
    assert_eq!((notice.level.width, notice.level.height), (20, 20));
    assert_eq!(st.logic_maze.level_id, 3);
    assert!(st.bullets.is_empty());
    assert_eq!(st.spawns, st.logic_maze.spawn_points(128));
    for (k, p) in st.players.iter().enumerate() {
        let (sx, sy) = st.spawns[k % st.spawns.len()];
        assert_eq!((p.pos_x, p.pos_y), (sx as i64 * 1000 + 500, sy as i64 * 1000 + 500));
        assert_eq!((p.health, p.ammo, p.angle), (100, 30, 0));
    }
    assert_eq!(st.spawn_cursor, 2);
    let notice = st.change_level(99);
    assert_eq!(notice.level.level_id, 1);
    assert_eq!(st.logic_maze.grid, Maze::load_level(1).grid);
}

#[test]
fn spawn_cursor_wraps() {
    let mut st = arena();
    let n = st.spawns.len();
    assert_eq!(n, 128);
    let first = st.next_spawn();
    for _ in 1..n {
        st.next_spawn();
    }
    assert_eq!(st.spawn_cursor, 0);
    assert_eq!(st.next_spawn(), first);
}

#[test]
fn wire_level_follows_active_level() {
    let st = arena();
    let wire = st.wire_level();
    assert_eq!(wire.level_id, 1);
    assert_eq!(wire.cells.len(), 400);
    assert!(wire.cells[0].wall_north);
    assert!(!wire.cells[20 + 1].wall_north);
}

#[test]
fn messages_are_dispatched() {
    let mut st = arena();
    let out = st.handle_message(
        ClientToServer::Join(JoinRequest { username: "alice".to_string() }),
        addr(7),
        0,
        0,
        5,
    );
    match out.reply {
        Some(ServerToClient::Accept(a)) => {
            assert_eq!(a.player_id, 1);
            assert_eq!(a.level.level_id, 1);
        }
        _ => panic!("expected an accept"),
    }
    assert!(out.broadcast.is_none());
    assert_eq!(out.recipients, vec![addr(7)]);
    st.handle_message(ClientToServer::Join(JoinRequest { username: "bob".to_string() }), addr(8), 0, 0, 5);

    let out = st.handle_message(ClientToServer::Ping(Ping { nonce: 77 }), addr(9), 0, 0, 6);
    assert!(matches!(out.reply, Some(ServerToClient::Pong(p)) if p.nonce == 77));
    assert_eq!(st.players.len(), 2);

    let out = st.handle_message(
        ClientToServer::Input(input(1, 2500, 2500, 0, Action::Shoot)),
        addr(7),
        0,
        -1000,
        2000,
    );
    assert!(out.reply.is_none() && out.broadcast.is_none());
    assert_eq!(st.bullets.len(), 1);
    assert_eq!(st.bullets[0].vy, -416);

    let out = st.handle_message(ClientToServer::SelectLevel(LevelSelection { player_id: 1, level_id: 2 }), addr(7), 0, 0, 7);
    match out.broadcast {
        Some(ServerToClient::Accept(a)) => {
            assert_eq!(a.player_id, 0);
            assert_eq!(a.level.level_id, 2);
            assert_eq!(a.level.width, 25);
        }
        _ => panic!("expected a level notice"),
    }
    assert_eq!(out.recipients.len(), 2);
    assert!(st.bullets.is_empty());

    let out = st.handle_message(ClientToServer::Leave(LeaveNotice { player_id: 1 }), addr(7), 0, 0, 8);
    assert!(matches!(out.broadcast, Some(ServerToClient::PlayerLeft(l)) if l.player_id == 1));
    assert_eq!(out.recipients, vec![addr(8)]);
    let out = st.handle_message(ClientToServer::Leave(LeaveNotice { player_id: 1 }), addr(7), 0, 0, 9);
    assert!(out.broadcast.is_none());
}

#[test]
fn join_is_refused_once_ids_run_out() {
    let mut st = arena();
    st.next_player_id = u64::MAX;
    let out = st.handle_message(
        ClientToServer::Join(JoinRequest { username: "late".to_string() }),
        addr(3),
        0,
        0,
        1,
    );
    assert!(matches!(out.reply, Some(ServerToClient::Error { .. })));
    assert!(st.players.is_empty());
    assert_eq!(st.next_player_id, u64::MAX);
}

#[test]
fn repeated_join_from_one_address_keeps_one_player() {
    let mut st = arena();
    let first = st.handle_message(
        ClientToServer::Join(JoinRequest { username: "alice".to_string() }),
        addr(7),
        0,
        0,
        1,
    );
    let again = st.handle_message(
        ClientToServer::Join(JoinRequest { username: "alice2".to_string() }),
        addr(7),
        0,
        0,
        2,
    );
    assert!(matches!(first.reply, Some(ServerToClient::Accept(ref a)) if a.player_id == 1));
    assert!(matches!(again.reply, Some(ServerToClient::Accept(ref a)) if a.player_id == 1));
    assert_eq!(st.players.len(), 1);
    assert_eq!(st.players[0].username, "alice");
    assert_eq!(st.next_player_id, 2);
    assert_eq!(st.find_addr(addr(7)), Some(0));
    assert_eq!(st.find_addr(addr(8)), None);
}
