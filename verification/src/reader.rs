//! A stream of bytes held in memory and handed out block by block.

use vstd::prelude::*;

verus! {

/// The most bytes that the stream functions ask for in one read.
pub const BUFSIZE: usize = 4096;

/// The smaller of two lengths.
pub open spec fn least(a: int, b: int) -> int {
    if a <= b {
        a
    } else {
        b
    }
}

/// A reader over a slice. Each read hands out the next bytes and moves on; the
/// reader can be told to hand out no more than a given number at a time, to
/// stand for a source that delivers its data in small pieces.
pub struct SliceReader<'a> {
    data: &'a [u8],
    pos: usize,
    step: usize,
}

impl<'a> SliceReader<'a> {
    /// The position lies within the data, and a read can make progress.
    #[verifier::type_invariant]
    spec fn wf(&self) -> bool {
        self.pos <= self.data@.len() && self.step > 0
    }

    /// The bytes not yet handed out.
    pub closed spec fn remaining(&self) -> Seq<u8> {
        self.data@.skip(self.pos as int)
    }

    /// The most bytes that one read hands out.
    pub closed spec fn step(&self) -> int {
        self.step as int
    }

    /// A reader at the start of `data` that hands out as much as is asked for.
    pub fn new(data: &'a [u8]) -> (r: Self)
        ensures
            r.remaining() == data@,
            r.step() == usize::MAX,
    {
        SliceReader { data, pos: 0, step: usize::MAX }
    }

    /// A reader at the start of `data` that hands out at most `step` bytes at
    /// a time. A `step` of zero counts as one.
    pub fn with_step(data: &'a [u8], step: usize) -> (r: Self)
        ensures
            r.remaining() == data@,
            r.step() == if step == 0 { 1 } else { step as int },
    {
        SliceReader { data, pos: 0, step: if step == 0 { 1 } else { step } }
    }

    /// Hands out the next block: as many of the remaining bytes as `limit` and
    /// the reader's step allow. The block is empty only at the end of the data
    /// or for a `limit` of zero.
    pub fn read(&mut self, limit: usize) -> (block: &'a [u8])
        ensures
            final(self).step() == old(self).step(),
            limit > 0 && old(self).remaining().len() > 0 ==> block@.len() > 0,
            block@.len() == least(
                least(limit as int, old(self).step()),
                old(self).remaining().len() as int,
            ),
            block@ == old(self).remaining().take(block@.len() as int),
            final(self).remaining() == old(self).remaining().skip(block@.len() as int),
    {
        proof {
            use_type_invariant(&*self);
        }
        let left: usize = self.data.len() - self.pos;
        let most: usize = if limit < self.step { limit } else { self.step };
        let n: usize = if left < most { left } else { most };
        let start: usize = self.pos;
        let end: usize = start + n;
        let data: &'a [u8] = self.data;
        let block: &'a [u8] = &data[start..end];
        self.pos = end;
        block
    }
}

} // verus!
