pub mod client;
pub mod codec;
pub mod error;
pub mod handlers;
pub mod names;
pub mod ovl;
pub mod render;
pub mod server;
pub mod types;
