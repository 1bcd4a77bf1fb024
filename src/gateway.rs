//! The decisions taken on each inbound message: which operation of the world
//! it asks for and what goes back out.
use vstd::prelude::*;
use crate::protocol::{is_wire_of, ClientToServer, JoinAccept, LeaveNotice, Pong, ServerToClient};
use crate::server::{
    holds_addr, input_applied, level_changed, registered, removed, Endpoint, ServerState,
    MAX_STEP,
};

verus! {

/// What the transport sends after one inbound message.
pub struct Outgoing {
    /// For the sender of the message.
    pub reply: Option<ServerToClient>,
    /// For every address of `recipients`.
    pub broadcast: Option<ServerToClient>,
    /// The addresses of all players after the message was handled.
    pub recipients: Vec<Endpoint>,
}

/// Nothing in the world changed.
pub open spec fn unchanged(pre: &ServerState, post: &ServerState) -> bool {
    &&& post.same_level(pre)
    &&& post.players@ == pre.players@
    &&& post.bullets@ == pre.bullets@
    &&& post.spawn_cursor == pre.spawn_cursor
    &&& post.next_player_id == pre.next_player_id
    &&& post.next_bullet_id == pre.next_bullet_id
}

/// `r` lists the addresses of the players of `s`, in order.
pub open spec fn addresses_of(r: Seq<Endpoint>, s: &ServerState) -> bool {
    r.len() == s.players@.len() && forall|k: int| 0 <= k < r.len() ==> r[k] == (
    #[trigger] s.players@[k]).addr
}

/// `m` accepts the join of player `id` and carries the active level of `s`.
pub open spec fn is_join_accept(m: Option<ServerToClient>, id: u64, s: &ServerState) -> bool {
    match m {
        Some(ServerToClient::Accept(a)) => a.player_id == id && is_wire_of(
            &a.level,
            s.logic_maze.level_id,
            &s.logic_maze,
        ),
        _ => false,
    }
}

/// `m` announces the level change from `pre` to `post` requested with `level_id`.
pub open spec fn is_level_notice(
    m: Option<ServerToClient>,
    pre: &ServerState,
    post: &ServerState,
    level_id: u32,
) -> bool {
    match m {
        Some(ServerToClient::Accept(a)) => level_changed(pre, post, level_id, a),
        _ => false,
    }
}

impl ServerState {
    /// Handles one decoded message from `from`. A join from an address that
    /// already has a player answers with that player's id and the level and
    /// changes nothing; any other join registers the player and answers with
    /// its id and the level (or an error once ids are exhausted); an input is applied with the heading `(dir_x, dir_y)` of its
    /// angle; a leave removes the player and tells everyone else; a ping is
    /// answered with the same nonce; a level selection switches level and
    /// tells everyone.
    pub fn handle_message(
        &mut self,
        msg: ClientToServer,
        from: Endpoint,
        dir_x: i64,
        dir_y: i64,
        now_ms: u64,
    ) -> (out: Outgoing)
        requires
            old(self).wf(),
            -MAX_STEP <= dir_x <= MAX_STEP,
            -MAX_STEP <= dir_y <= MAX_STEP,
        ensures
            final(self).wf(),
            addresses_of(out.recipients@, final(self)),
            match msg {
                ClientToServer::Join(j) => if exists|i: int| holds_addr(old(self).players@, i, from) {
                    &&& unchanged(old(self), final(self))
                    &&& out.broadcast is None
                    &&& forall|i: int|
                        holds_addr(old(self).players@, i, from) ==> is_join_accept(
                            out.reply,
                            old(self).players@[i].player_id,
                            final(self),
                        )
                } else if old(self).next_player_id < u64::MAX {
                    &&& registered(
                        old(self),
                        final(self),
                        old(self).next_player_id,
                        from,
                        j.username@,
                        now_ms,
                    )
                    &&& is_join_accept(out.reply, old(self).next_player_id, final(self))
                    &&& out.broadcast is None
                } else {
                    &&& unchanged(old(self), final(self))
                    &&& out.reply matches Some(ServerToClient::Error { .. })
                    &&& out.broadcast is None
                },
                ClientToServer::Input(i) => {
                    &&& input_applied(old(self), final(self), i, dir_x, dir_y, now_ms)
                    &&& out.reply is None
                    &&& out.broadcast is None
                },
                ClientToServer::Leave(l) => {
                    &&& out.reply is None
                    &&& exists|r: Option<Endpoint>|
                        #[trigger] removed(old(self), final(self), l.player_id, r) && out.broadcast
                            == if r is Some {
                            Some(ServerToClient::PlayerLeft(LeaveNotice { player_id: l.player_id }))
                        } else {
                            None
                        }
                },
                ClientToServer::Ping(p) => {
                    &&& unchanged(old(self), final(self))
                    &&& out.reply == Some(ServerToClient::Pong(Pong { nonce: p.nonce }))
                    &&& out.broadcast is None
                },
                ClientToServer::SelectLevel(s) => {
                    &&& out.reply is None
                    &&& is_level_notice(out.broadcast, old(self), final(self), s.level_id)
                },
            },
    {
        let (reply, broadcast) = match msg {
            ClientToServer::Join(j) => {
                if let Some(i) = self.find_addr(from) {
                    let player_id = self.players[i].player_id;
                    let level = self.wire_level();
                    (Some(ServerToClient::Accept(JoinAccept { player_id, level })), None)
                } else if self.next_player_id < u64::MAX {
                    let (player_id, _) = self.register_player(from, j.username, now_ms);
                    let level = self.wire_level();
                    (Some(ServerToClient::Accept(JoinAccept { player_id, level })), None)
                } else {
                    (Some(ServerToClient::Error { message: "server full".to_string() }), None)
                }
            },
            ClientToServer::Input(i) => {
                self.handle_input(i, dir_x, dir_y, now_ms);
                (None, None)
            },
            ClientToServer::Leave(l) => {
                let r = self.unregister(l.player_id);
                let broadcast = match r {
                    Some(_) => Some(
                        ServerToClient::PlayerLeft(LeaveNotice { player_id: l.player_id }),
                    ),
                    None => None,
                };
                assert(removed(old(self), self, l.player_id, r));
                (None, broadcast)
            },
            ClientToServer::Ping(p) => (Some(ServerToClient::Pong(Pong { nonce: p.nonce })), None),
            ClientToServer::SelectLevel(s) => {
                let notice = self.change_level(s.level_id);
                (None, Some(ServerToClient::Accept(notice)))
            },
        };
        Outgoing { reply, broadcast, recipients: self.recipients() }
    }
}

} // verus!
