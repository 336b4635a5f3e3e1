pub mod commands;
pub mod config;
pub mod ext;
pub mod glob;
pub mod laws;
pub mod persistence;
pub mod pubsub;
pub mod resp;
pub mod server;
pub mod store;
pub mod text;
