pub mod text;
pub mod ui;
pub mod network;
pub mod config;
pub mod fsm;
pub mod engine;
pub mod browser;
