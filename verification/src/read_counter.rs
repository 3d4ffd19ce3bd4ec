//! Byte accounting within a bounded chunk.  A `ReadCounter` remembers where
//! a chunk's payload begins, so the parser can tell how many payload bytes a
//! cursor has consumed and discard what trails after the end-of-track event.

use vstd::prelude::*;

verus! {

/// Counts the bytes a cursor has consumed since the counter was created.
pub struct ReadCounter {
    start: usize,
}

impl ReadCounter {
    /// The position the counter was created at.
    pub closed spec fn spec_start(&self) -> int {
        self.start as int
    }

    /// Starts counting at the cursor position `pos`.
    pub fn new(pos: usize) -> (r: ReadCounter)
        ensures
            r.spec_start() == pos as int,
    {
        ReadCounter { start: pos }
    }

    /// How many bytes a cursor now at `pos` has consumed since counting began.
    pub fn bytes_read(&self, pos: usize) -> (r: usize)
        requires
            self.spec_start() <= pos as int,
        ensures
            r == pos as int - self.spec_start(),
    {
        pos - self.start
    }
}

} // verus!
