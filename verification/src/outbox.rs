//! The frames that are due for sending.
use vstd::prelude::*;

verus! {

/// Collects frames in the order in which they are to be sent.
#[derive(Debug)]
pub struct Outbox {
    pub frames: Vec<Vec<u8>>,
}

impl View for Outbox {
    type V = Seq<Seq<u8>>;

    open spec fn view(&self) -> Seq<Seq<u8>> {
        Seq::new(self.frames@.len(), |i: int| self.frames@[i]@)
    }
}

impl Outbox {
    pub fn new() -> (outbox: Self)
        ensures
            outbox@ == Seq::<Seq<u8>>::empty(),
    {
        let outbox = Self { frames: Vec::new() };
        assert(outbox@ =~= Seq::<Seq<u8>>::empty());
        outbox
    }

    /// Adds a frame behind those that are already there.
    pub fn send(&mut self, frame: &[u8])
        ensures
            final(self)@ == old(self)@.push(frame@),
    {
        let mut copy: Vec<u8> = Vec::new();
        copy.extend_from_slice(frame);
        assert(copy@ =~= frame@);
        self.frames.push(copy);
        assert(self@ =~= old(self)@.push(frame@));
    }
}

} // verus!
