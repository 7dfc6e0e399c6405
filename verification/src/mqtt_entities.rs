//! Connections: the packets held in a connection's buffer and the session
//! state around them.

pub mod mqtt;
pub mod mqtt_handler;
