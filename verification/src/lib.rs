//! The frame transport of a datagram connection.
//!
//! Datagrams wait in a two-level send queue, leave in data frames that respect the frame size
//! limit, a congestion window and a window of sequence ids, and stay in flight until they are
//! acknowledged or given up.
#![allow(unused_imports)]

use vstd::prelude::*;

pub mod congestion_window;
pub mod frame;
pub mod frame_io;
pub mod laws;
pub mod outbox;
pub mod send_queue;
pub mod time;
pub mod transfer_entry;
pub mod transfer_queue;

verus! {

/// The size of the largest frame, in bytes: what an Ethernet packet of 1500 bytes leaves after
/// the IPv4 and UDP headers.
pub const MTU: usize = 1472;

} // verus!
