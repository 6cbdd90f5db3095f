pub mod command;
pub mod latency;
pub mod ring;
pub mod relay;
pub mod echo_protocol;
pub mod chat_protocol;
pub mod room;
pub mod connection;
pub mod bounce;
pub mod hierarchy;
