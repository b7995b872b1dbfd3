//! The congestion window: how many bytes may be in flight.
use crate::MTU;
use vstd::prelude::*;

verus! {

/// The window, in bytes. It grows with each acknowledgement and halves with each loss.
#[derive(Debug)]
pub struct CongestionWindow {
    size: usize,
}

/// The window after an acknowledgement: one frame larger, up to the maximum.
pub open spec fn window_after_ack(size: nat) -> nat {
    if size + CongestionWindow::ACK_INCREASE > CongestionWindow::MAX_SIZE {
        CongestionWindow::MAX_SIZE as nat
    } else {
        size + CongestionWindow::ACK_INCREASE as nat
    }
}

/// The window after a loss: half as large, rounded up, down to the minimum.
pub open spec fn window_after_nack(size: nat) -> nat {
    if (size + 1) / 2 < CongestionWindow::MIN_SIZE {
        CongestionWindow::MIN_SIZE as nat
    } else {
        (size + 1) / 2
    }
}

/// The sizes that a window may have.
pub open spec fn window_in_bounds(size: nat) -> bool {
    CongestionWindow::MIN_SIZE <= size <= CongestionWindow::MAX_SIZE
}

impl View for CongestionWindow {
    type V = nat;

    closed spec fn view(&self) -> nat {
        self.size as nat
    }
}

impl CongestionWindow {
    /// What an acknowledgement adds.
    pub const ACK_INCREASE: usize = MTU;

    /// The smallest window, in which a frame of any size still fits.
    pub const MIN_SIZE: usize = MTU;

    pub const MAX_SIZE: usize = 0x4000_0000;

    pub open spec fn wf(self) -> bool {
        window_in_bounds(self@)
    }

    pub fn new() -> (window: Self)
        ensures
            window.wf(),
            window@ == Self::MIN_SIZE,
    {
        Self { size: Self::MIN_SIZE }
    }

    pub fn signal_ack(&mut self)
        requires
            old(self).wf(),
        ensures
            final(self).wf(),
            final(self)@ == window_after_ack(old(self)@),
    {
        self.size = self.size + Self::ACK_INCREASE;
        if self.size > Self::MAX_SIZE {
            self.size = Self::MAX_SIZE;
        }
    }

    pub fn signal_nack(&mut self)
        requires
            old(self).wf(),
        ensures
            final(self).wf(),
            final(self)@ == window_after_nack(old(self)@),
    {
        self.size = (self.size + 1) / 2;
        if self.size < Self::MIN_SIZE {
            self.size = Self::MIN_SIZE;
        }
    }

    pub fn size(&self) -> (size: usize)
        ensures
            size == self@,
    {
        self.size
    }
}

} // verus!
