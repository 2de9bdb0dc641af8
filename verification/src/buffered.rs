//! A bounded replay buffer of morsels.
//!
//! Sampled morsels are relabeled with fresh sequence numbers starting at an
//! offset; when the buffer is re-injected in front of a live stream, every
//! buffered morsel precedes the stream and the stream's sequence numbers are
//! shifted past the buffer, so the combined stream's numbers stay strictly
//! increasing.

use vstd::prelude::*;

use crate::morsel::seqs_increasing;
use crate::morsel::Morsel;

verus! {

/// A replay buffer: relabeled morsels and the first sequence number after
/// them.
pub struct BufferedStream {
    pub morsels: Vec<Morsel>,
    pub post_buffer_offset: u64,
}

impl BufferedStream {
    /// Buffered morsels carry the consecutive sequence numbers just below
    /// the post-buffer offset.
    pub open spec fn wf(&self) -> bool {
        &&& self.post_buffer_offset >= self.morsels@.len()
        &&& forall|i: int|
            0 <= i < self.morsels@.len() ==> (#[trigger] self.morsels@[i]).seq as int
                == self.post_buffer_offset - self.morsels@.len() + i
    }

    /// An empty buffer.
    pub fn new_empty() -> (r: BufferedStream)
        ensures
            r.wf(),
            r.morsels@.len() == 0,
            r.post_buffer_offset == 0,
    {
        BufferedStream { morsels: Vec::new(), post_buffer_offset: 0 }
    }

    /// Relabels the morsels with consecutive sequence numbers from the start
    /// offset; their frames are kept.
    pub fn new(morsels: Vec<Morsel>, start_offset: u64) -> (r: BufferedStream)
        requires
            start_offset as int + morsels@.len() <= u64::MAX as int,
        ensures
            r.wf(),
            r.morsels@.len() == morsels@.len(),
            forall|i: int|
                0 <= i < morsels@.len() ==> (#[trigger] r.morsels@[i]).df.rows@ == morsels@[i].df.rows@
                    && r.morsels@[i].df.names@ == morsels@[i].df.names@ && r.morsels@[i].seq as int
                    == start_offset as int + i,
            r.post_buffer_offset as int == start_offset as int + morsels@.len(),
    {
        let ghost orig = morsels@;
        let mut morsels = morsels;
        let mut relabeled: Vec<Morsel> = Vec::new();
        let ghost mut i: int = 0;
        let mut seq: u64 = start_offset;
        while morsels.len() > 0
            invariant
                0 <= i <= orig.len(),
                morsels@ == orig.skip(i),
                seq as int == start_offset as int + i,
                start_offset as int + orig.len() <= u64::MAX as int,
                relabeled@.len() == i,
                forall|j: int|
                    0 <= j < i ==> (#[trigger] relabeled@[j]).df.rows@ == orig[j].df.rows@
                        && relabeled@[j].df.names@ == orig[j].df.names@ && relabeled@[j].seq as int
                        == start_offset as int + j,
            decreases morsels.len(),
        {
            assert(i < orig.len()) by {
                assert(orig.skip(i).len() > 0);
            }
            let m = morsels.remove(0);
            assert(m == orig[i]);
            assert(morsels@ =~= orig.skip(i + 1));
            relabeled.push(Morsel { df: m.df, seq });
            seq += 1;
            proof {
                i = i + 1;
            }
        }
        proof {
            assert(orig.skip(i).len() == 0);
        }
        BufferedStream { morsels: relabeled, post_buffer_offset: seq }
    }

    pub fn is_empty(&self) -> (r: bool)
        ensures
            r == (self.morsels@.len() == 0),
    {
        self.morsels.len() == 0
    }

    /// Re-injects the buffer in front of a live stream: the buffered morsels
    /// come first, then the stream's morsels with their sequence numbers
    /// shifted past the buffer. Strictly increasing stream numbers stay
    /// strictly increasing in the combined stream.
    pub fn reinsert(self, downstream: Vec<Morsel>) -> (r: Vec<Morsel>)
        requires
            self.wf(),
            forall|i: int|
                0 <= i < downstream@.len() ==> (#[trigger] downstream@[i]).seq as int
                    + self.post_buffer_offset as int <= u64::MAX as int,
        ensures
            r@.len() == self.morsels@.len() + downstream@.len(),
            forall|i: int|
                0 <= i < self.morsels@.len() ==> (#[trigger] r@[i]) == self.morsels@[i],
            forall|i: int|
                0 <= i < downstream@.len() ==> (#[trigger] r@[self.morsels@.len() + i]).df.rows@
                    == downstream@[i].df.rows@ && r@[self.morsels@.len() + i].df.names@
                    == downstream@[i].df.names@ && r@[self.morsels@.len() + i].seq as int
                    == downstream@[i].seq as int + self.post_buffer_offset as int,
            seqs_increasing(downstream@) ==> seqs_increasing(r@),
    {
        let offset = self.post_buffer_offset;
        let ghost buf = self.morsels@;
        let ghost down = downstream@;
        let mut r = self.morsels;
        let mut downstream = downstream;
        let ghost mut i: int = 0;
        while downstream.len() > 0
            invariant
                0 <= i <= down.len(),
                downstream@ == down.skip(i),
                offset == self.post_buffer_offset,
                forall|j: int|
                    0 <= j < down.len() ==> (#[trigger] down[j]).seq as int + offset as int
                        <= u64::MAX as int,
                r@.len() == buf.len() + i,
                forall|j: int| 0 <= j < buf.len() ==> (#[trigger] r@[j]) == buf[j],
                forall|j: int|
                    0 <= j < i ==> (#[trigger] r@[buf.len() + j]).df.rows@ == down[j].df.rows@
                        && r@[buf.len() + j].df.names@ == down[j].df.names@ && r@[buf.len()
                        + j].seq as int == down[j].seq as int + offset as int,
            decreases downstream.len(),
        {
            assert(i < down.len()) by {
                assert(down.skip(i).len() > 0);
            }
            let m = downstream.remove(0);
            assert(m == down[i]);
            assert(downstream@ =~= down.skip(i + 1));
            let new_seq = m.seq + offset;
            r.push(Morsel { df: m.df, seq: new_seq });
            proof {
                i = i + 1;
            }
        }
        proof {
            assert(down.skip(i).len() == 0);
            if seqs_increasing(down) {
                assert forall|a: int, b: int| 0 <= a < b < r@.len() implies r@[a].seq
                    < r@[b].seq by {
                    if b < buf.len() {
                    } else if a < buf.len() {
                        let jb = b - buf.len();
                        assert(r@[buf.len() + jb].seq as int == down[jb].seq as int
                            + offset as int);
                        assert(r@[a].seq as int == self.post_buffer_offset - buf.len() + a);
                    } else {
                        let ja = a - buf.len();
                        let jb = b - buf.len();
                        assert(r@[buf.len() + ja].seq as int == down[ja].seq as int
                            + offset as int);
                        assert(r@[buf.len() + jb].seq as int == down[jb].seq as int
                            + offset as int);
                        assert(down[ja].seq < down[jb].seq);
                    }
                }
            }
        }
        r
    }
}

} // verus!
