//! Properties of the world that span several operations or every input.
use vstd::prelude::*;
use crate::maze::Maze;
use crate::server::{
    advanced, award, bullet_ids_increasing, credited, is_victim, on_walkable, respawn_all,
    respawned,
    run_bullets, spawn_center, step_bullet, BulletInfo, PlayerInfo, ServerState, TickOutcome,
    FULL_AMMO, FULL_HEALTH, KILL_SCORE, SHOT_COOLDOWN_MS, damaged, registered, removed, input_applied, level_changed, holds_player,
    Endpoint,
};
use crate::protocol::{HitEvent, InputUpdate, JoinAccept};

verus! {

/// Neither id counter goes back from `a` to `b`.
pub open spec fn counters_advance(a: &ServerState, b: &ServerState) -> bool {
    a.next_player_id <= b.next_player_id && a.next_bullet_id <= b.next_bullet_id
}

/// The step from `a` to `b` hands out the player id `a.next_player_id`.
pub open spec fn assigns_player_id(a: &ServerState, b: &ServerState) -> bool {
    b.next_player_id == a.next_player_id + 1
}

/// The step from `a` to `b` hands out the projectile id `a.next_bullet_id`.
pub open spec fn assigns_bullet_id(a: &ServerState, b: &ServerState) -> bool {
    b.next_bullet_id == a.next_bullet_id + 1
}

/// Every step of `run` keeps or advances the id counters, as every
/// operation of the world does.
pub open spec fn counters_monotone(run: Seq<ServerState>) -> bool {
    forall|k: int| 0 <= k < run.len() - 1 ==> #[trigger] counters_advance(&run[k], &run[k + 1])
}

proof fn lemma_counters_chain(run: Seq<ServerState>, a: int, b: int)
    requires
        counters_monotone(run),
        0 <= a <= b < run.len(),
    ensures
        counters_advance(&run[a], &run[b]),
    decreases b - a,
{
    if a < b {
        lemma_counters_chain(run, a + 1, b);
        assert(counters_advance(&run[a], &run[a + 1]));
    }
}

/// Player and projectile ids are strictly increasing and never reused: over
/// any run of the world, an id handed out at one step is smaller than any id
/// of the same kind handed out at a later step.
pub proof fn lemma_ids_strictly_increase(run: Seq<ServerState>, a: int, b: int)
    requires
        counters_monotone(run),
        0 <= a < b,
        b + 1 < run.len(),
    ensures
        assigns_player_id(&run[a], &run[a + 1]) && assigns_player_id(&run[b], &run[b + 1])
            ==> run[a].next_player_id < run[b].next_player_id,
        assigns_bullet_id(&run[a], &run[a + 1]) && assigns_bullet_id(&run[b], &run[b + 1])
            ==> run[a].next_bullet_id < run[b].next_bullet_id,
{
    lemma_counters_chain(run, a + 1, b);
}

/// `x` is projectile `i` of `bs`, advanced one step onto a walkable cell.
pub open spec fn advanced_from(m: &Maze, bs: Seq<BulletInfo>, i: int, x: BulletInfo) -> bool {
    0 <= i < bs.len() && x == advanced(bs[i]) && on_walkable(m, x.x, x.y)
}

/// `x` is some projectile of `bs`, advanced one step onto a walkable cell.
pub open spec fn has_origin(m: &Maze, bs: Seq<BulletInfo>, x: BulletInfo) -> bool {
    exists|i: int| #[trigger] advanced_from(m, bs, i, x)
}

/// Each projectile that a first pass keeps is a projectile of `bs`, advanced
/// one step onto a walkable cell.
proof fn lemma_kept_from_input(m: &Maze, ps: Seq<PlayerInfo>, bs: Seq<BulletInfo>)
    ensures
        forall|k: int|
            0 <= k < run_bullets(m, ps, bs).kept.len() ==> has_origin(
                m,
                bs,
                #[trigger] run_bullets(m, ps, bs).kept[k],
            ),
    decreases bs.len(),
{
    if bs.len() > 0 {
        let prev = bs.drop_last();
        lemma_kept_from_input(m, ps, prev);
        let t = run_bullets(m, ps, prev);
        let u = run_bullets(m, ps, bs);
        assert(u == step_bullet(m, t, bs.last()));
        assert forall|k: int| 0 <= k < u.kept.len() implies has_origin(m, bs, #[trigger] u.kept[k]) by {
            if k < t.kept.len() {
                assert(u.kept[k] == t.kept[k]);
                assert(has_origin(m, prev, t.kept[k]));
                let i = choose|i: int| #[trigger] advanced_from(m, prev, i, t.kept[k]);
                assert(prev[i] == bs[i]);
                assert(advanced_from(m, bs, i, u.kept[k]));
            } else {
                assert(u.kept[k] == advanced(bs[bs.len() - 1]));
                assert(advanced_from(m, bs, bs.len() - 1, u.kept[k]));
            }
        }
    } else {
        assert(run_bullets(m, ps, bs).kept.len() == 0);
    }
}

/// `h` was struck by a projectile of `bs` that stayed on a walkable cell.
pub open spec fn hit_has_origin(m: &Maze, bs: Seq<BulletInfo>, h: HitEvent) -> bool {
    exists|i: int|
        0 <= i < bs.len() && #[trigger] bs[i].bullet_id == h.bullet_id && on_walkable(
            m,
            advanced(bs[i]).x,
            advanced(bs[i]).y,
        )
}

/// Each hit of a first pass comes from a projectile of `bs` whose step kept
/// it on a walkable cell.
proof fn lemma_hits_from_input(m: &Maze, ps: Seq<PlayerInfo>, bs: Seq<BulletInfo>)
    ensures
        forall|k: int|
            0 <= k < run_bullets(m, ps, bs).hits.len() ==> hit_has_origin(
                m,
                bs,
                #[trigger] run_bullets(m, ps, bs).hits[k],
            ),
    decreases bs.len(),
{
    if bs.len() > 0 {
        let prev = bs.drop_last();
        lemma_hits_from_input(m, ps, prev);
        let t = run_bullets(m, ps, prev);
        let u = run_bullets(m, ps, bs);
        assert(u == step_bullet(m, t, bs.last()));
        assert forall|k: int| 0 <= k < u.hits.len() implies hit_has_origin(m, bs, #[trigger] u.hits[k]) by {
            if k < t.hits.len() {
                assert(u.hits[k] == t.hits[k]);
                assert(hit_has_origin(m, prev, t.hits[k]));
                let i = choose|i: int|
                    0 <= i < prev.len() && #[trigger] prev[i].bullet_id == t.hits[k].bullet_id
                        && on_walkable(m, advanced(prev[i]).x, advanced(prev[i]).y);
                assert(prev[i] == bs[i]);
            } else {
                assert(u.hits[k].bullet_id == bs[bs.len() - 1].bullet_id);
            }
        }
    } else {
        assert(run_bullets(m, ps, bs).hits.len() == 0);
    }
}

/// A projectile whose step takes it onto a wall or out of the grid is gone
/// after that step: no projectile kept by the step carries its id, and it
/// strikes no one.
pub proof fn lemma_wall_bullet_removed(m: &Maze, ps: Seq<PlayerInfo>, bs: Seq<BulletInfo>, j: int)
    requires
        bullet_ids_increasing(bs),
        0 <= j < bs.len(),
        !on_walkable(m, advanced(bs[j]).x, advanced(bs[j]).y),
    ensures
        forall|k: int|
            0 <= k < run_bullets(m, ps, bs).kept.len() ==> (#[trigger] run_bullets(
                m,
                ps,
                bs,
            ).kept[k]).bullet_id != bs[j].bullet_id,
        forall|k: int|
            0 <= k < run_bullets(m, ps, bs).hits.len() ==> (#[trigger] run_bullets(
                m,
                ps,
                bs,
            ).hits[k]).bullet_id != bs[j].bullet_id,
{
    lemma_kept_from_input(m, ps, bs);
    lemma_hits_from_input(m, ps, bs);
    let hits = run_bullets(m, ps, bs).hits;
    assert forall|k: int| 0 <= k < hits.len() implies (#[trigger] hits[k]).bullet_id
        != bs[j].bullet_id by {
        assert(hit_has_origin(m, bs, hits[k]));
        let i = choose|i: int|
            0 <= i < bs.len() && #[trigger] bs[i].bullet_id == hits[k].bullet_id && on_walkable(
                m,
                advanced(bs[i]).x,
                advanced(bs[i]).y,
            );
        if i < j {
            assert(bs[i].bullet_id < bs[j].bullet_id);
        } else if i > j {
            assert(bs[j].bullet_id < bs[i].bullet_id);
        }
    }
    let kept = run_bullets(m, ps, bs).kept;
    assert forall|k: int| 0 <= k < kept.len() implies (#[trigger] kept[k]).bullet_id
        != bs[j].bullet_id by {
        assert(has_origin(m, bs, kept[k]));
        let i = choose|i: int| #[trigger] advanced_from(m, bs, i, kept[k]);
        if i != j {
            if i < j {
                assert(bs[i].bullet_id < bs[j].bullet_id);
            } else {
                assert(bs[j].bullet_id < bs[i].bullet_id);
            }
        }
    }
}

/// The projectiles of `b` are projectiles of `a` or carry ids that `a` had
/// not handed out yet; the projectile counter does not go back.
pub open spec fn bullets_evolve(a: &ServerState, b: &ServerState) -> bool {
    &&& a.next_bullet_id <= b.next_bullet_id
    &&& forall|k: int|
        0 <= k < b.bullets@.len() ==> (exists|i: int|
            0 <= i < a.bullets@.len() && a.bullets@[i].bullet_id == (
            #[trigger] b.bullets@[k]).bullet_id) || b.bullets@[k].bullet_id >= a.next_bullet_id
}

/// Step `k` of `run` lets projectiles evolve.
pub open spec fn evolves_at(run: Seq<ServerState>, k: int) -> bool {
    bullets_evolve(&run[k], &run[k + 1])
}

/// The world holds a projectile with this id.
pub open spec fn holds_bullet(s: &ServerState, id: u64) -> bool {
    exists|i: int| 0 <= i < s.bullets@.len() && s.bullets@[i].bullet_id == id
}

/// A simulation step leaves only projectiles that were in flight before it.
pub proof fn lemma_step_bullets_evolve(a: &ServerState, b: &ServerState)
    requires
        b.bullets@ == run_bullets(&a.logic_maze, a.players@, a.bullets@).kept,
        a.next_bullet_id == b.next_bullet_id,
    ensures
        bullets_evolve(a, b),
{
    lemma_kept_from_input(&a.logic_maze, a.players@, a.bullets@);
    assert forall|k: int| 0 <= k < b.bullets@.len() implies (exists|i: int|
        0 <= i < a.bullets@.len() && a.bullets@[i].bullet_id == (
        #[trigger] b.bullets@[k]).bullet_id) || b.bullets@[k].bullet_id >= a.next_bullet_id by {
        assert(has_origin(&a.logic_maze, a.bullets@, b.bullets@[k]));
        let i = choose|i: int| #[trigger] advanced_from(&a.logic_maze, a.bullets@, i, b.bullets@[k]);
        assert(a.bullets@[i].bullet_id == b.bullets@[k].bullet_id);
    }
}

/// A projectile, once gone, never comes back: along any run whose steps let
/// projectiles evolve as the world's operations do, an id that was handed
/// out and is no longer held is not held at any later state.
pub proof fn lemma_removed_bullet_stays_gone(run: Seq<ServerState>, id: u64, n: int)
    requires
        forall|k: int| 0 <= k < run.len() - 1 ==> #[trigger] evolves_at(run, k),
        run.len() > 0,
        id < run[0].next_bullet_id,
        !holds_bullet(&run[0], id),
        0 <= n < run.len(),
    ensures
        !holds_bullet(&run[n], id),
        id < run[n].next_bullet_id,
    decreases n,
{
    if n > 0 {
        lemma_removed_bullet_stays_gone(run, id, n - 1);
        assert(evolves_at(run, n - 1));
        if holds_bullet(&run[n], id) {
            let k = choose|k: int| 0 <= k < run[n].bullets@.len() && run[n].bullets@[k].bullet_id == id;
            assert(run[n].bullets@[k].bullet_id == id);
        }
    }
}

/// The player with id `v` after the respawns of `kills`, when `v` is one of
/// the victims: back at the centre of a spawn cell with full health and ammo,
/// facing angle zero.
pub open spec fn back_at_spawn(q: PlayerInfo, spawns: Seq<(usize, usize)>) -> bool {
    &&& q.health == FULL_HEALTH
    &&& q.ammo == FULL_AMMO
    &&& q.angle == 0
    &&& exists|c: int| 0 <= c < spawns.len() && (q.pos_x, q.pos_y) == spawn_center(#[trigger] spawns[c])
}

/// A player whose health reached zero during a simulation step ends that
/// step, and so is seen by the next broadcast, at a spawn cell with full
/// health and ammo.
pub proof fn lemma_victims_respawned(
    ps: Seq<PlayerInfo>,
    kills: Seq<(u64, u64)>,
    spawns: Seq<(usize, usize)>,
    cursor: int,
)
    requires
        spawns.len() > 0,
        0 <= cursor < spawns.len(),
    ensures
        respawn_all(award(ps, kills), kills, spawns, cursor).0.len() == ps.len(),
        0 <= respawn_all(award(ps, kills), kills, spawns, cursor).1 < spawns.len(),
        forall|k: int, i: int|
            #![trigger respawn_all(award(ps, kills), kills, spawns, cursor).0[i], kills[k]]
            0 <= k < kills.len() && 0 <= i < ps.len() && ps[i].player_id == kills[k].0
                ==> back_at_spawn(
                respawn_all(award(ps, kills), kills, spawns, cursor).0[i],
                spawns,
            ) && respawn_all(award(ps, kills), kills, spawns, cursor).0[i].player_id
                == ps[i].player_id,
        forall|i: int|
            0 <= i < ps.len() ==> (#[trigger] respawn_all(award(ps, kills), kills, spawns, cursor).0[i]).player_id
                == ps[i].player_id,
        forall|i: int|
            0 <= i < ps.len() && !is_victim(kills, ps[i].player_id) ==> (#[trigger] respawn_all(
                award(ps, kills),
                kills,
                spawns,
                cursor,
            ).0[i]).health == ps[i].health,
{
    lemma_award_keeps(ps, kills);
    lemma_respawn_all(award(ps, kills), kills, spawns, cursor);
}

proof fn lemma_award_keeps(ps: Seq<PlayerInfo>, kills: Seq<(u64, u64)>)
    ensures
        award(ps, kills).len() == ps.len(),
        forall|i: int|
            0 <= i < ps.len() ==> (#[trigger] award(ps, kills)[i]).player_id == ps[i].player_id
                && award(ps, kills)[i].health == ps[i].health,
    decreases kills.len(),
{
    if kills.len() > 0 {
        lemma_award_keeps(ps, kills.drop_last());
        let prev = award(ps, kills.drop_last());
        assert forall|i: int| 0 <= i < ps.len() implies (#[trigger] award(ps, kills)[i]).player_id
            == ps[i].player_id && award(ps, kills)[i].health == ps[i].health by {
            assert(prev[i].player_id == ps[i].player_id);
            assert(credited(prev[i]).player_id == prev[i].player_id);
        }
    }
}

proof fn lemma_respawn_all(
    ps: Seq<PlayerInfo>,
    kills: Seq<(u64, u64)>,
    spawns: Seq<(usize, usize)>,
    cursor: int,
)
    requires
        spawns.len() > 0,
        0 <= cursor < spawns.len(),
    ensures
        respawn_all(ps, kills, spawns, cursor).0.len() == ps.len(),
        0 <= respawn_all(ps, kills, spawns, cursor).1 < spawns.len(),
        forall|i: int|
            0 <= i < ps.len() ==> (#[trigger] respawn_all(ps, kills, spawns, cursor).0[i]).player_id
                == ps[i].player_id,
        forall|k: int, i: int|
            #![trigger respawn_all(ps, kills, spawns, cursor).0[i], kills[k]]
            0 <= k < kills.len() && 0 <= i < ps.len() && ps[i].player_id == kills[k].0
                ==> back_at_spawn(respawn_all(ps, kills, spawns, cursor).0[i], spawns),
        forall|i: int|
            0 <= i < ps.len() && !is_victim(kills, ps[i].player_id) ==> (#[trigger] respawn_all(
                ps,
                kills,
                spawns,
                cursor,
            ).0[i]).health == ps[i].health,
    decreases kills.len(),
{
    if kills.len() > 0 {
        let rest = kills.drop_last();
        lemma_respawn_all(ps, rest, spawns, cursor);
        let (prev, c) = respawn_all(ps, rest, spawns, cursor);
        let v = kills.last().0;
        let pos = spawn_center(spawns[c]);
        let cur = respawn_all(ps, kills, spawns, cursor).0;
        assert forall|k: int, i: int|
            #![trigger respawn_all(ps, kills, spawns, cursor).0[i], kills[k]]
            0 <= k < kills.len() && 0 <= i < ps.len() && ps[i].player_id == kills[k].0 implies back_at_spawn(
            respawn_all(ps, kills, spawns, cursor).0[i],
            spawns,
        ) by {
            if prev[i].player_id == v {
                assert(cur[i] == respawned(prev[i], pos));
                assert(0 <= c < spawns.len());
                assert((cur[i].pos_x, cur[i].pos_y) == spawn_center(spawns[c]));
            } else {
                assert(cur[i] == prev[i]);
                assert(k < rest.len());
                assert(rest[k] == kills[k]);
            }
        }
        assert forall|i: int| 0 <= i < ps.len() implies (#[trigger] respawn_all(
            ps,
            kills,
            spawns,
            cursor,
        ).0[i]).player_id == ps[i].player_id by {
            assert(prev[i].player_id == ps[i].player_id);
        }
        assert forall|i: int|
            0 <= i < ps.len() && !is_victim(kills, ps[i].player_id) implies (#[trigger] respawn_all(
            ps,
            kills,
            spawns,
            cursor,
        ).0[i]).health == ps[i].health by {
            if is_victim(rest, ps[i].player_id) {
                let j = choose|j: int| 0 <= j < rest.len() && #[trigger] rest[j].0 == ps[i].player_id;
                assert(kills[j] == rest[j]);
            }
            assert(kills[kills.len() - 1].0 != ps[i].player_id);
            assert(prev[i].player_id == ps[i].player_id);
        }
    }
}

proof fn lemma_same_bullets_evolve(a: &ServerState, b: &ServerState)
    requires
        b.bullets@ == a.bullets@,
        a.next_bullet_id <= b.next_bullet_id,
    ensures
        bullets_evolve(a, b),
{
    assert forall|k: int| 0 <= k < b.bullets@.len() implies (exists|i: int|
        0 <= i < a.bullets@.len() && a.bullets@[i].bullet_id == (
        #[trigger] b.bullets@[k]).bullet_id) || b.bullets@[k].bullet_id >= a.next_bullet_id by {
        assert(a.bullets@[k].bullet_id == b.bullets@[k].bullet_id);
    }
}

/// A join hands out the player id it returns, keeps the projectile counter
/// and lets projectiles evolve.
pub proof fn lemma_join_steps(
    pre: &ServerState,
    post: &ServerState,
    id: u64,
    addr: Endpoint,
    name: Seq<char>,
    now_ms: u64,
)
    requires
        registered(pre, post, id, addr, name, now_ms),
    ensures
        counters_advance(pre, post),
        assigns_player_id(pre, post),
        bullets_evolve(pre, post),
{
    lemma_same_bullets_evolve(pre, post);
}

/// A leave keeps both counters and lets projectiles evolve.
pub proof fn lemma_leave_steps(pre: &ServerState, post: &ServerState, id: u64, r: Option<Endpoint>)
    requires
        removed(pre, post, id, r),
    ensures
        counters_advance(pre, post),
        bullets_evolve(pre, post),
{
    lemma_same_bullets_evolve(pre, post);
}

/// An input keeps the player counter, hands out at most the next projectile
/// id, and lets projectiles evolve.
pub proof fn lemma_input_steps(
    pre: &ServerState,
    post: &ServerState,
    input: InputUpdate,
    dir_x: i64,
    dir_y: i64,
    now_ms: u64,
)
    requires
        input_applied(pre, post, input, dir_x, dir_y, now_ms),
    ensures
        counters_advance(pre, post),
        bullets_evolve(pre, post),
{
    if post.bullets@ == pre.bullets@ {
        lemma_same_bullets_evolve(pre, post);
    } else {
        let i = choose|i: int| holds_player(pre.players@, i, input.player_id);
        assert forall|k: int| 0 <= k < post.bullets@.len() implies (exists|j: int|
            0 <= j < pre.bullets@.len() && pre.bullets@[j].bullet_id == (
            #[trigger] post.bullets@[k]).bullet_id) || post.bullets@[k].bullet_id
            >= pre.next_bullet_id by {
            if k < pre.bullets@.len() {
                assert(pre.bullets@[k].bullet_id == post.bullets@[k].bullet_id);
            }
        }
    }
}

/// A level change keeps both counters and leaves no projectile.
pub proof fn lemma_level_change_steps(
    pre: &ServerState,
    post: &ServerState,
    level_id: u32,
    notice: JoinAccept,
)
    requires
        level_changed(pre, post, level_id, notice),
    ensures
        counters_advance(pre, post),
        bullets_evolve(pre, post),
{
}

/// Of two shooting inputs of one player less than `SHOT_COOLDOWN_MS` apart,
/// at most one fires: together they add at most one projectile.
pub proof fn lemma_cooldown_one_shot(
    s0: &ServerState,
    s1: &ServerState,
    s2: &ServerState,
    first: InputUpdate,
    second: InputUpdate,
    dir: (i64, i64),
    t1: u64,
    t2: u64,
)
    requires
        input_applied(s0, s1, first, dir.0, dir.1, t1),
        input_applied(s1, s2, second, dir.0, dir.1, t2),
        first.player_id == second.player_id,
        t1 <= t2,
        t2 < t1 + SHOT_COOLDOWN_MS,
    ensures
        s2.bullets@.len() <= s0.bullets@.len() + 1,
{
    let id = first.player_id;
    if exists|i: int| holds_player(s0.players@, i, id) {
        let i = choose|i: int| holds_player(s0.players@, i, id);
        assert(holds_player(s1.players@, i, id));
        if crate::server::accepts_move(&s0.logic_maze, first) && crate::server::fires(
            s0.players@[i],
            first,
            t1,
            s0.next_bullet_id,
        ) {
            assert(s1.players@[i].last_shot_ms == Some(t1));
            assert(!crate::server::cooled_down(s1.players@[i], t2));
        }
    } else {
        assert forall|i: int| !holds_player(s1.players@, i, id) by {
            if holds_player(s1.players@, i, id) {
                assert(holds_player(s0.players@, i, id));
            }
        }
    }
}

/// A hit takes `damage` off a player's health, flooring at zero. It counts
/// a death exactly when health goes from positive to zero (the counter
/// saturates at `u32::MAX`); a kill adds one kill and `KILL_SCORE` to the
/// killer (both saturating).
pub proof fn lemma_hit_and_kill_counts(p: PlayerInfo, damage: u8)
    ensures
        p.health > damage ==> damaged(p, damage).health == p.health - damage && damaged(
            p,
            damage,
        ).deaths == p.deaths,
        p.health == 0 ==> damaged(p, damage).health == 0 && damaged(p, damage).deaths == p.deaths,
        0 < p.health <= damage && p.deaths < u32::MAX ==> damaged(p, damage).health == 0
            && damaged(p, damage).deaths == p.deaths + 1,
        p.kills < u32::MAX && p.score <= u32::MAX - KILL_SCORE ==> credited(p).kills == p.kills
            + 1 && credited(p).score == p.score + KILL_SCORE,
{
}

} // verus!
