//! Channel cryptography core of a satellite-broadcast decoder: packed
//! wire and flash layouts, a flash-backed subscription directory, the
//! timestamp key tree, frame decoding with anti-replay, and the
//! chunk-acknowledged host link.

pub mod codec;
pub mod flash;
pub mod directory;
pub mod active;
pub mod keytree;
pub mod hostcom;
pub mod channel_manager;
pub mod dispatch;
