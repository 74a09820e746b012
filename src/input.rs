//! A cursor into the frame being decoded.
use vstd::prelude::*;

verus! {

/// The bytes that remain to be decoded (`input`), together with the whole
/// frame that they end (`frame`), against which compression pointers are
/// resolved.
#[derive(Debug, Clone, Copy, PartialEq)]
pub struct DnsFrameInput<'a> {
    pub input: &'a [u8],
    pub frame: &'a [u8],
}

impl<'a> DnsFrameInput<'a> {
    /// `input` is a suffix of `frame`.
    pub open spec fn wf(self) -> bool {
        &&& self.input@.len() <= self.frame@.len()
        &&& self.input@ == self.frame@.subrange(self.pos(), self.frame@.len() as int)
    }

    /// The offset in the frame at which `input` starts.
    pub open spec fn pos(self) -> int {
        self.frame@.len() - self.input@.len()
    }

    /// A cursor at the start of `frame`.
    pub fn new(frame: &'a [u8]) -> (r: Self)
        ensures
            r.frame == frame,
            r.input@ == frame@,
            r.wf(),
            r.pos() == 0,
    {
        proof {
            assert(frame@ =~= frame@.subrange(0, frame@.len() as int));
        }
        Self { frame: frame, input: frame }
    }

    /// The offset in the frame at which the cursor stands.
    pub fn offset(&self) -> (r: usize)
        requires
            self.wf(),
        ensures
            r == self.pos(),
    {
        self.frame.len() - self.input.len()
    }

    /// A cursor on the same frame, at offset `pos`.
    pub fn at(&self, pos: usize) -> (r: Self)
        requires
            pos <= self.frame@.len(),
        ensures
            r.frame == self.frame,
            r.wf(),
            r.pos() == pos,
    {
        let frame = self.frame;
        let input = &frame[pos..frame.len()];
        Self { frame, input }
    }
}

} // verus!
