//! Laws that relate several operations, over the models that the contracts speak of.
pub mod acks;
pub mod assembling;
pub mod delivery;
pub mod frames;
pub mod histories;
pub mod ordering;
pub mod reading;
pub mod receiving;
pub mod reporting;
pub mod resending;
pub mod sending;
pub mod subscribing;
pub mod wire;
