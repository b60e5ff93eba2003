//! Sinks: what the blocks of a slice are handed to.

use crate::uastc::{DecodedBlock, DecodedBlockView};
use vstd::prelude::*;

verus! {

/// Something that takes the blocks of a slice, one after the other.
pub trait BlockSink {
    /// The blocks taken so far, the first one first.
    spec fn received(&self) -> Seq<DecodedBlockView>;

    /// Whether the sink can take a block, whichever it is.
    spec fn ready(&self) -> bool;

    /// Takes one more block.
    fn accept(&mut self, block: DecodedBlock)
        requires
            old(self).ready(),
        ensures
            final(self).ready(),
            final(self).received() == old(self).received().push(block@),
    ;
}

/// A list as a sink: it keeps every block it takes.
impl BlockSink for Vec<DecodedBlock> {
    open spec fn received(&self) -> Seq<DecodedBlockView> {
        Seq::new(self@.len(), |i: int| self@[i]@)
    }

    open spec fn ready(&self) -> bool {
        true
    }

    fn accept(&mut self, block: DecodedBlock) {
        self.push(block);
        assert(self.received() =~= old(self).received().push(block@));
    }
}

/// A closure as a sink: it hands every block it takes to the closure.
pub struct FnSink<F: FnMut(DecodedBlock)> {
    callback: F,
    taken: Ghost<Seq<DecodedBlockView>>,
}

impl<F: FnMut(DecodedBlock)> FnSink<F> {
    /// Whether a call of the closure on `block` can have returned. The sink
    /// knows this of a block only by making the call.
    pub closed spec fn handed(&self, block: DecodedBlock) -> bool {
        call_ensures(self.callback, (block,), ())
    }

    /// A sink that has taken nothing yet and hands what it takes to
    /// `callback`.
    pub fn new(callback: F) -> (sink: Self)
        requires
            forall|block: DecodedBlock| call_requires(callback, (block,)),
        ensures
            sink.ready(),
            sink.received() == Seq::<DecodedBlockView>::empty(),
    {
        let sink = FnSink { callback, taken: Ghost(Seq::empty()) };
        assert forall|block: DecodedBlock| call_requires(sink.callback, (block,)) by {
            assert(call_requires(callback, (block,)));
        }
        sink
    }
}

impl<F: FnMut(DecodedBlock)> BlockSink for FnSink<F> {
    closed spec fn received(&self) -> Seq<DecodedBlockView> {
        self.taken@
    }

    closed spec fn ready(&self) -> bool {
        forall|block: DecodedBlock| call_requires(self.callback, (block,))
    }

    /// Hands `block` to the closure and notes that it was taken.
    fn accept(&mut self, block: DecodedBlock)
        ensures
            old(self).handed(block),
    {
        (self.callback)(block);
        self.taken = Ghost(self.taken@.push(block@));
    }
}

} // verus!
