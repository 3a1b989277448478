pub mod window;
pub mod time;
pub mod text;
pub mod ipc;
pub mod input;
