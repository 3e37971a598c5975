pub mod connection;
pub mod dispatch;
pub mod server;
pub mod shutdown;
