//! Wire format, object bookkeeping and buffering of the Wayland protocol.

pub mod backend;
pub mod client;
pub mod connect;
pub mod cursor;
pub mod decimal;
pub mod env;
pub mod fd;
pub mod globals;
pub mod map;
pub mod protocol;
pub mod socket;
pub mod syscalls;
pub mod utils;
pub mod wire;
pub mod words;
