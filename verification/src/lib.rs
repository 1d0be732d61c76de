//! Hierarchical resource cache and diff-log persistence for a multiplayer
//! world simulation: demand-paged location loading with a two-tier retention
//! policy, append-only diff logs with snapshot+replay recovery, and a
//! subscription-driven fan-out of location updates.

pub mod cache;
pub mod client_step;
pub mod entities;
pub mod entity_map;
pub mod fanout;
pub mod guard;
pub mod identity;
pub mod keys;
pub mod loader;
pub mod location;
pub mod messaging;
pub mod mirror;
pub mod objects;
pub mod points;
pub mod resources;
pub mod server_step;
pub mod subs;
pub mod table;
pub mod text;
pub mod traits;
pub mod userbase;
pub mod worlds;
