pub mod cli;
pub mod clock;
pub mod config;
pub mod connection;
pub mod delivery;
pub mod flags;
pub mod floor;
pub mod frames;
pub mod hook_request;
pub mod hooks;
pub mod ids;
pub mod json;
pub mod line;
pub mod migrate;
pub mod percent;
pub mod prose;
pub mod registration;
pub mod room;
pub mod seats;
pub mod server_name;
pub mod session;
pub mod settings;
pub mod text;
pub mod text_map;
pub mod topics;
