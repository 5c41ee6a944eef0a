pub mod cli;
pub mod config;
pub mod process;
pub mod proxy;
pub mod route_headers;
pub mod self_update;
pub mod text;
pub mod tui;
pub mod upstream;
