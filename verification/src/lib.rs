//! Access control and path confinement for a file-sharing service with
//! several users and several mounts.
//!
//! Given who asks, which mount they ask about and the path they sent, the
//! library decides what they may do there and computes a location that lies
//! inside the mount.

pub mod access;
pub mod auth;
pub mod config;
pub mod grant;
pub mod listing;
pub mod paths;
pub mod permission;
pub mod profile;
pub mod request;
pub mod table;
pub mod text;
