//! Hivemind: an open marketplace where agents meet, discover each other by
//! capability, exchange messages, and are recruited by a coordinator.

pub mod api;
pub mod brain;
pub mod coordinator;
pub mod hub;
pub mod json;
pub mod laws;
pub mod models;
pub mod rank;
pub mod text;
