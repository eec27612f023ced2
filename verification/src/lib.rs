pub mod text;
pub mod config;
pub mod database;
pub mod helpers;
pub mod server;
