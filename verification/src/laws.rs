//! What holds of the transport as a whole.
pub mod entry;
pub mod flight;
pub mod flushing;
pub mod packing;
pub mod receiving;
pub mod sending;
pub mod waiting;
pub mod wire;
