pub mod codec;
pub mod config;
pub mod dispatch;
pub mod mailbox;
pub mod text;
pub mod views;
