//! Agent-aware project switcher for herdr: the verified core.
pub mod text;
pub mod order;
pub mod paths;
pub mod config;
pub mod sources;
pub mod herdr;
pub mod model;
pub mod registry;
pub mod picker;
pub mod session;
