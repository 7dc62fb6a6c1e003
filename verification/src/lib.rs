//! Message layer of a networked game library.
//!
//! A [`message_manager::MessageManager`] sits between an application and an unreliable datagram
//! transport. Messages are buffered on channels, packed into packets of bounded size,
//! acknowledged by the remote, and handed back to the application on the other side.
//!
//! Every executable function is verified against a contract over mathematical models
//! (`Seq`, `Map` and plain structs); the laws that relate several operations are proved in
//! [`laws`].
pub mod ack_map;
pub mod channel;
pub mod header;
pub mod ids;
pub mod laws;
pub mod manager_model;
pub mod message;
pub mod message_manager;
pub mod model;
pub mod packet;
pub mod packet_manager;
pub mod serialize;
pub mod shared;
pub mod text;
