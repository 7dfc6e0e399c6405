//! Routing of published messages to subscribers.

pub mod route_entity;
