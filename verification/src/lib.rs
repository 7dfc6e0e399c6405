//! An MQTT broker core: packet framing and parsing, per-connection session
//! state, the topic routing tree, and the broker's event handling.

pub mod mqtt_entities;
pub mod mqtt_routes;
pub mod topic;
pub mod mqtt_server;

