//! A registry of rooms and their connections for grouped real-time messaging.
//!
//! The registry keeps rooms in the order they were created and, inside each
//! room, connections in the order they joined. It never touches a transport:
//! a delivery call answers with the frame to send and the members to send it
//! to, in order, and a close call hands over the members that leave. Whoever
//! owns the transport performs the sends while it still holds the registry
//! exclusively.

pub mod frame;
pub mod selection;
pub mod connection;
pub mod room;
pub mod delivery;
pub mod closing;
pub mod registry;
pub mod broadcaster;
pub mod laws;
