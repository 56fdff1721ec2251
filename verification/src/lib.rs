//! Game rules shared by the player client and the session server: the
//! server's registry of connected players (connections, heartbeats,
//! disconnections and movement routing), the default naming of players,
//! and the client's keyboard movement and jump cooldown.

pub mod control_laws;
pub mod movement;
pub mod naming;
pub mod naming_laws;
pub mod registry_laws;
pub mod server;
