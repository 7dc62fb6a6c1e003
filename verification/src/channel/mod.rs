//! Channels: what happens to messages before they are packed and after they are unpacked.
pub mod acks;
pub mod settings;
pub mod unreliable_sender;
pub mod reliable_sender;
pub mod fragment_receiver;
pub mod receiver;
pub mod sender;
pub mod registry;
