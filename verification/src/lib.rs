//! Password hashing with tunable cost, constant-time verification and
//! lazy re-hashing of credentials whose cost parameters have gone stale.

pub mod base64;
pub mod codec;
pub mod credential;
pub mod error;
pub mod hasher;
pub mod manager;
pub mod matcher;
pub mod params;
pub mod primitive;
