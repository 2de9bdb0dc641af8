//! Morsels: frames tagged with a monotonic sequence number.

use vstd::prelude::*;

use crate::frame::rows_view;
use crate::frame::Cell;
use crate::frame::Frame;

verus! {

/// A unit of streamed data: one frame and its sequence number. The sequence
/// number defines the total order of morsels within one stream.
pub struct Morsel {
    pub df: Frame,
    pub seq: u64,
}

impl Morsel {
    pub open spec fn wf(&self) -> bool {
        self.df.wf()
    }
}

/// The rows of a morsel's frame.
pub open spec fn morsel_rows(m: Morsel) -> Seq<Seq<Cell>> {
    rows_view(m.df.rows@)
}

/// Whether the sequence numbers of a morsel list are strictly increasing.
pub open spec fn seqs_increasing(ms: Seq<Morsel>) -> bool {
    forall|a: int, b: int| 0 <= a < b < ms.len() ==> ms[a].seq < ms[b].seq
}

} // verus!
