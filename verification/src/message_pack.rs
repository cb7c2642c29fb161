//! The MessagePack side of the library.

pub mod serialize;
