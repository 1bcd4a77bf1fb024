//! Authoritative game logic for a grid-based multiplayer arena shooter:
//! level generation, the shared world state, input validation, projectile
//! simulation and the message model exchanged with clients.

pub mod maze;
pub mod level;
pub mod protocol;
pub mod server;
pub mod laws;
pub mod gateway;
