//! Per-partition probe tables.
//!
//! A probe table holds the build-side key rows and payload rows of one
//! partition, chunk by chunk in insertion order, together with a match mark
//! per row and the origin sequence number of each chunk. The chunk structure
//! is kept as inserted: the unmatched scan qualifies every row by its chunk
//! and its position inside the chunk.

use vstd::prelude::*;
use vstd::pervasive::VecAdditionalExecFns;

use crate::frame::copy_cells;
use crate::frame::rows_view;
use crate::frame::Cell;
use crate::keys::keys_match;
use crate::keys::keys_match_exec;
use crate::names::names_view;

verus! {

/// The view of a list of chunks of rows.
pub open spec fn chunks_view(cs: Seq<Vec<Vec<Cell>>>) -> Seq<Seq<Seq<Cell>>> {
    cs.map_values(|c: Vec<Vec<Cell>>| rows_view(c@))
}

/// The view of a list of mark chunks.
pub open spec fn bools_view(ms: Seq<Vec<bool>>) -> Seq<Seq<bool>> {
    ms.map_values(|m: Vec<bool>| m@)
}

/// The build-side payload rows of one chunk that match a probe key, in row
/// order.
pub open spec fn matches_in_chunk(
    kc: Seq<Seq<Cell>>,
    rc: Seq<Seq<Cell>>,
    k: Seq<Cell>,
    nulls_equal: bool,
) -> Seq<Seq<Cell>>
    decreases kc.len(),
{
    if kc.len() == 0 {
        Seq::empty()
    } else {
        matches_in_chunk(kc.drop_last(), rc.drop_last(), k, nulls_equal) + (if keys_match(
            kc.last(),
            k,
            nulls_equal,
        ) {
            seq![rc.last()]
        } else {
            Seq::empty()
        })
    }
}

/// The build-side payload rows of a whole table that match a probe key, in
/// chunk order then row order.
pub open spec fn matches_in_table(
    kcs: Seq<Seq<Seq<Cell>>>,
    rcs: Seq<Seq<Seq<Cell>>>,
    k: Seq<Cell>,
    nulls_equal: bool,
) -> Seq<Seq<Cell>>
    decreases kcs.len(),
{
    if kcs.len() == 0 {
        Seq::empty()
    } else {
        matches_in_table(kcs.drop_last(), rcs.drop_last(), k, nulls_equal) + matches_in_chunk(
            kcs.last(),
            rcs.last(),
            k,
            nulls_equal,
        )
    }
}

/// The unmatched rows of one chunk, tagged with the chunk's origin sequence
/// number and the row's position inside the chunk.
pub open spec fn unmatched_in_chunk(rc: Seq<Seq<Cell>>, mc: Seq<bool>, s: u64) -> Seq<
    (u64, int, Seq<Cell>),
>
    decreases rc.len(),
{
    if rc.len() == 0 {
        Seq::empty()
    } else {
        unmatched_in_chunk(rc.drop_last(), mc.drop_last(), s) + (if !mc.last() {
            seq![(s, rc.len() - 1, rc.last())]
        } else {
            Seq::empty()
        })
    }
}

/// The unmatched rows of a whole table, in chunk order then row order.
pub open spec fn unmatched_in_table(
    rcs: Seq<Seq<Seq<Cell>>>,
    mcs: Seq<Seq<bool>>,
    seqs: Seq<u64>,
) -> Seq<(u64, int, Seq<Cell>)>
    decreases rcs.len(),
{
    if rcs.len() == 0 {
        Seq::empty()
    } else {
        unmatched_in_table(rcs.drop_last(), mcs.drop_last(), seqs.drop_last()) + unmatched_in_chunk(
            rcs.last(),
            mcs.last(),
            seqs.last(),
        )
    }
}

/// The number of key rows a table holds, chunk by chunk, saturating at the
/// machine limit.
pub open spec fn key_total(kcs: Seq<Seq<Seq<Cell>>>) -> int
    decreases kcs.len(),
{
    if kcs.len() == 0 {
        0
    } else {
        crate::sample::sat_add(key_total(kcs.drop_last()), kcs.last().len() as int)
    }
}

/// One unmatched build row, qualified by its chunk's origin sequence number
/// and its position inside the chunk.
pub struct UnmatchedRow {
    pub seq: u64,
    pub idx: usize,
    pub row: Vec<Cell>,
}

/// The view of a list of unmatched rows.
pub open spec fn unmatched_view(v: Seq<UnmatchedRow>) -> Seq<(u64, int, Seq<Cell>)> {
    v.map_values(|u: UnmatchedRow| (u.seq, u.idx as int, u.row@))
}


/// Mapping rows to their views commutes with appending one row.
pub proof fn lemma_rows_view_push(s: Seq<Vec<Cell>>, v: Vec<Cell>)
    ensures
        rows_view(s.push(v)) == rows_view(s).push(v@),
{
    assert forall|t: int| 0 <= t < s.len() + 1 implies rows_view(s.push(v))[t] == rows_view(
        s,
    ).push(v@)[t] by {
        if t < s.len() {
            assert(s.push(v)[t] == s[t]);
        } else {
            assert(s.push(v)[t] == v);
        }
    }
    assert(rows_view(s.push(v)) =~= rows_view(s).push(v@));
}

/// Mapping unmatched rows to their views commutes with appending one row.
pub proof fn lemma_unmatched_view_push(s: Seq<UnmatchedRow>, u: UnmatchedRow)
    ensures
        unmatched_view(s.push(u)) == unmatched_view(s).push((u.seq, u.idx as int, u.row@)),
{
    assert forall|t: int| 0 <= t < s.len() + 1 implies unmatched_view(s.push(u))[t]
        == unmatched_view(s).push((u.seq, u.idx as int, u.row@))[t] by {
        if t < s.len() {
            assert(s.push(u)[t] == s[t]);
        } else {
            assert(s.push(u)[t] == u);
        }
    }
    assert(unmatched_view(s.push(u)) =~= unmatched_view(s).push((u.seq, u.idx as int, u.row@)));
}

/// The probe table of one partition.
pub struct ProbeTable {
    /// The build payload schema: names of the payload columns.
    pub names: Vec<Vec<u8>>,
    /// Key rows, chunk by chunk in insertion order.
    pub keys: Vec<Vec<Vec<Cell>>>,
    /// Payload rows, aligned with the key chunks.
    pub rows: Vec<Vec<Vec<Cell>>>,
    /// One match mark per row, aligned with the key chunks.
    pub marks: Vec<Vec<bool>>,
    /// The origin sequence number of each chunk.
    pub chunk_seqs: Vec<u64>,
}

impl ProbeTable {
    /// Chunks are aligned, non-empty, and payload rows fit the schema.
    pub open spec fn wf(&self) -> bool {
        &&& self.rows@.len() == self.keys@.len()
        &&& self.marks@.len() == self.keys@.len()
        &&& self.chunk_seqs@.len() == self.keys@.len()
        &&& forall|c: int|
            0 <= c < self.keys@.len() ==> (#[trigger] self.rows@[c])@.len()
                == self.keys@[c]@.len()
        &&& forall|c: int|
            0 <= c < self.keys@.len() ==> (#[trigger] self.marks@[c])@.len()
                == self.keys@[c]@.len()
        &&& forall|c: int| 0 <= c < self.keys@.len() ==> (#[trigger] self.keys@[c])@.len() > 0
        &&& forall|c: int, i: int|
            0 <= c < self.rows@.len() && 0 <= i < self.rows@[c]@.len()
                ==> (#[trigger] self.rows@[c]@[i])@.len() == self.names@.len()
    }

    /// An empty table over the given payload schema.
    pub fn new_empty(names: Vec<Vec<u8>>) -> (r: ProbeTable)
        ensures
            r.wf(),
            r.names@ == names@,
            r.keys@.len() == 0,
    {
        ProbeTable {
            names,
            keys: Vec::new(),
            rows: Vec::new(),
            marks: Vec::new(),
            chunk_seqs: Vec::new(),
        }
    }

    /// Inserts one non-empty aligned chunk of key and payload rows with its
    /// origin sequence number; the new rows are unmarked.
    pub fn insert_chunk(&mut self, keys: Vec<Vec<Cell>>, rows: Vec<Vec<Cell>>, seq: u64)
        requires
            old(self).wf(),
            keys@.len() == rows@.len(),
            keys@.len() > 0,
            forall|i: int|
                0 <= i < rows@.len() ==> (#[trigger] rows@[i])@.len() == old(self).names@.len(),
        ensures
            final(self).wf(),
            final(self).names@ == old(self).names@,
            chunks_view(final(self).keys@) == chunks_view(old(self).keys@).push(rows_view(keys@)),
            chunks_view(final(self).rows@) == chunks_view(old(self).rows@).push(rows_view(rows@)),
            bools_view(final(self).marks@) == bools_view(old(self).marks@).push(
                Seq::new(keys@.len() as nat, |i: int| false),
            ),
            final(self).chunk_seqs@ == old(self).chunk_seqs@.push(seq),
    {
        let n = keys.len();
        let mut mark_chunk: Vec<bool> = Vec::new();
        let mut i: usize = 0;
        while i < n
            invariant
                0 <= i <= n,
                mark_chunk@.len() == i,
                forall|j: int| 0 <= j < i ==> !(#[trigger] mark_chunk@[j]),
            decreases n - i,
        {
            mark_chunk.push(false);
            i += 1;
        }
        assert(mark_chunk@ =~= Seq::new(keys@.len() as nat, |j: int| false));
        self.keys.push(keys);
        self.rows.push(rows);
        self.marks.push(mark_chunk);
        self.chunk_seqs.push(seq);
        proof {
            assert(chunks_view(self.keys@) =~= chunks_view(old(self).keys@).push(
                rows_view(keys@),
            ));
            assert(chunks_view(self.rows@) =~= chunks_view(old(self).rows@).push(
                rows_view(rows@),
            ));
            assert(bools_view(self.marks@) =~= bools_view(old(self).marks@).push(
                Seq::new(keys@.len() as nat, |j: int| false),
            ));
        }
    }

    /// Probes one key: returns the matching build payload rows in chunk
    /// order then row order, and, when asked to, marks every matched key.
    pub fn probe_one(&mut self, k: &Vec<Cell>, nulls_equal: bool, mark: bool) -> (out: Vec<
        Vec<Cell>,
    >)
        requires
            old(self).wf(),
        ensures
            final(self).wf(),
            final(self).names@ == old(self).names@,
            final(self).keys@ == old(self).keys@,
            final(self).rows@ == old(self).rows@,
            final(self).chunk_seqs@ == old(self).chunk_seqs@,
            rows_view(out@) == matches_in_table(
                chunks_view(old(self).keys@),
                chunks_view(old(self).rows@),
                k@,
                nulls_equal,
            ),
            bools_view(final(self).marks@).len() == bools_view(old(self).marks@).len(),
            forall|c: int, i: int|
                0 <= c < old(self).marks@.len() && 0 <= i < old(self).marks@[c]@.len()
                    ==> bools_view(final(self).marks@)[c][i] == (bools_view(old(self).marks@)[c][i]
                    || (mark && keys_match(chunks_view(old(self).keys@)[c][i], k@, nulls_equal))),
            forall|c: int|
                0 <= c < old(self).marks@.len() ==> bools_view(final(self).marks@)[c].len()
                    == bools_view(old(self).marks@)[c].len(),
    {
        let ghost kcs = chunks_view(self.keys@);
        let ghost rcs = chunks_view(self.rows@);
        let ghost mcs0 = bools_view(self.marks@);
        let mut out: Vec<Vec<Cell>> = Vec::new();
        let num_chunks = self.keys.len();
        let mut c: usize = 0;
        proof {
            assert(kcs.take(0) =~= Seq::<Seq<Seq<Cell>>>::empty());
            assert(rcs.take(0) =~= Seq::<Seq<Seq<Cell>>>::empty());
        }
        while c < num_chunks
            invariant
                0 <= c <= num_chunks,
                num_chunks == self.keys@.len(),
                self.wf(),
                self.names@ == old(self).names@,
                self.keys@ == old(self).keys@,
                self.rows@ == old(self).rows@,
                self.chunk_seqs@ == old(self).chunk_seqs@,
                kcs == chunks_view(self.keys@),
                rcs == chunks_view(self.rows@),
                mcs0 == bools_view(old(self).marks@),
                self.marks@.len() == old(self).marks@.len(),
                rows_view(out@) == matches_in_table(
                    kcs.take(c as int),
                    rcs.take(c as int),
                    k@,
                    nulls_equal,
                ),
                forall|c2: int|
                    0 <= c2 < self.marks@.len() ==> (#[trigger] self.marks@[c2])@.len()
                        == mcs0[c2].len(),
                forall|c2: int, i2: int|
                    #![trigger self.marks@[c2]@[i2]]
                    c <= c2 < self.marks@.len() && 0 <= i2 < mcs0[c2].len()
                        ==> self.marks@[c2]@[i2] == mcs0[c2][i2],
                forall|c2: int, i2: int|
                    #![trigger self.marks@[c2]@[i2]]
                    0 <= c2 < c && 0 <= i2 < mcs0[c2].len() ==> self.marks@[c2]@[i2] == (
                    mcs0[c2][i2] || (mark && keys_match(kcs[c2][i2], k@, nulls_equal))),
            decreases num_chunks - c,
        {
            let chunk_len = self.keys[c].len();
            let mut nm: Vec<bool> = Vec::new();
            let ghost cm0 = self.marks@[c as int]@;
            let ghost out_pre = rows_view(out@);
            let mut i: usize = 0;
            proof {
                assert(cm0 == mcs0[c as int]);
                assert(rows_view(self.keys@[c as int]@) == kcs[c as int]);
                assert(rows_view(self.rows@[c as int]@) == rcs[c as int]);
                assert(kcs[c as int].take(0) =~= Seq::<Seq<Cell>>::empty());
                assert(rcs[c as int].take(0) =~= Seq::<Seq<Cell>>::empty());
            }
            while i < chunk_len
                invariant
                    0 <= i <= chunk_len,
                    0 <= c < num_chunks,
                    num_chunks == self.keys@.len(),
                    self.wf(),
                    self.keys@ == old(self).keys@,
                    self.rows@ == old(self).rows@,
                    chunk_len == self.keys@[c as int]@.len(),
                    kcs == chunks_view(self.keys@),
                    rcs == chunks_view(self.rows@),
                    cm0 == self.marks@[c as int]@,
                    cm0.len() == chunk_len,
                    nm@.len() == i,
                    rows_view(out@) == out_pre + matches_in_chunk(
                        kcs[c as int].take(i as int),
                        rcs[c as int].take(i as int),
                        k@,
                        nulls_equal,
                    ),
                    forall|i2: int|
                        0 <= i2 < i ==> (#[trigger] nm@[i2]) == (cm0[i2] || (mark && keys_match(
                            kcs[c as int][i2],
                            k@,
                            nulls_equal,
                        ))),
                decreases chunk_len - i,
            {
                proof {
                    assert(kcs[c as int].take(i + 1).drop_last() =~= kcs[c as int].take(i as int));
                    assert(rcs[c as int].take(i + 1).drop_last() =~= rcs[c as int].take(i as int));
                    assert(kcs[c as int].take(i + 1).last() == kcs[c as int][i as int]);
                    assert(rcs[c as int].take(i + 1).last() == rcs[c as int][i as int]);
                    assert(kcs[c as int][i as int] == self.keys@[c as int]@[i as int]@);
                    assert(rcs[c as int][i as int] == self.rows@[c as int]@[i as int]@);
                }
                let is_match = keys_match_exec(&self.keys[c][i], k, nulls_equal);
                if is_match {
                    let row = copy_cells(&self.rows[c][i]);
                    let ghost rowv = row@;
                    let ghost out_snap = out@;
                    out.push(row);
                    proof {
                        assert(out@ == out_snap.push(out@.last()));
                        assert(out@.last()@ == rowv);
                        lemma_rows_view_push(out_snap, out@.last());
                        assert(rows_view(out@) =~= out_pre + matches_in_chunk(
                            kcs[c as int].take(i + 1),
                            rcs[c as int].take(i + 1),
                            k@,
                            nulls_equal,
                        ));
                    }
                } else {
                    proof {
                        assert(rows_view(out@) =~= out_pre + matches_in_chunk(
                            kcs[c as int].take(i + 1),
                            rcs[c as int].take(i + 1),
                            k@,
                            nulls_equal,
                        ));
                    }
                }
                nm.push(self.marks[c][i] || (mark && is_match));
                i += 1;
            }
            proof {
                assert(kcs[c as int].take(chunk_len as int) =~= kcs[c as int]);
                assert(rcs[c as int].take(chunk_len as int) =~= rcs[c as int]);
                assert(kcs.take(c + 1).drop_last() =~= kcs.take(c as int));
                assert(rcs.take(c + 1).drop_last() =~= rcs.take(c as int));
                assert(kcs.take(c + 1).last() == kcs[c as int]);
                assert(rcs.take(c + 1).last() == rcs[c as int]);
            }
            let ghost nmv = nm@;
            self.marks.set(c, nm);
            proof {
                assert(self.marks@[c as int]@ == nmv);
            }
            c += 1;
        }
        proof {
            assert(kcs.take(num_chunks as int) =~= kcs);
            assert(rcs.take(num_chunks as int) =~= rcs);
            assert forall|c2: int, i2: int|
                0 <= c2 < old(self).marks@.len() && 0 <= i2 < old(self).marks@[c2]@.len() implies
                bools_view(self.marks@)[c2][i2] == (bools_view(old(self).marks@)[c2][i2] || (mark
                    && keys_match(chunks_view(old(self).keys@)[c2][i2], k@, nulls_equal))) by {
                assert(mcs0[c2] == old(self).marks@[c2]@);
                assert(bools_view(self.marks@)[c2] == self.marks@[c2]@);
            }
            assert forall|c2: int| 0 <= c2 < old(self).marks@.len() implies bools_view(
                self.marks@,
            )[c2].len() == bools_view(old(self).marks@)[c2].len() by {
                assert(bools_view(self.marks@)[c2] == self.marks@[c2]@);
                assert(mcs0[c2] == old(self).marks@[c2]@);
            }
        }
        out
    }

    /// Scans the whole table for unmatched rows: every row whose mark is
    /// still clear, in chunk order then row order, qualified by origin
    /// sequence number and position in its chunk.
    pub fn unmatched_rows(&self) -> (out: Vec<UnmatchedRow>)
        requires
            self.wf(),
        ensures
            unmatched_view(out@) == unmatched_in_table(
                chunks_view(self.rows@),
                bools_view(self.marks@),
                self.chunk_seqs@,
            ),
            forall|t: int|
                0 <= t < out@.len() ==> (#[trigger] out@[t]).row@.len() == self.names@.len(),
    {
        let ghost rcs = chunks_view(self.rows@);
        let ghost mcs = bools_view(self.marks@);
        let ghost seqs = self.chunk_seqs@;
        let mut out: Vec<UnmatchedRow> = Vec::new();
        let num_chunks = self.rows.len();
        let mut c: usize = 0;
        proof {
            assert(rcs.take(0) =~= Seq::<Seq<Seq<Cell>>>::empty());
            assert(mcs.take(0) =~= Seq::<Seq<bool>>::empty());
            assert(seqs.take(0) =~= Seq::<u64>::empty());
        }
        while c < num_chunks
            invariant
                0 <= c <= num_chunks,
                num_chunks == self.rows@.len(),
                self.wf(),
                rcs == chunks_view(self.rows@),
                mcs == bools_view(self.marks@),
                seqs == self.chunk_seqs@,
                unmatched_view(out@) == unmatched_in_table(
                    rcs.take(c as int),
                    mcs.take(c as int),
                    seqs.take(c as int),
                ),
                forall|t: int|
                    0 <= t < out@.len() ==> (#[trigger] out@[t]).row@.len() == self.names@.len(),
            decreases num_chunks - c,
        {
            let chunk_len = self.rows[c].len();
            let s = self.chunk_seqs[c];
            let ghost out_pre = unmatched_view(out@);
            let mut i: usize = 0;
            proof {
                assert(rcs[c as int].take(0) =~= Seq::<Seq<Cell>>::empty());
                assert(mcs[c as int].take(0) =~= Seq::<bool>::empty());
            }
            while i < chunk_len
                invariant
                    0 <= i <= chunk_len,
                    0 <= c < num_chunks,
                    num_chunks == self.rows@.len(),
                    self.wf(),
                    rcs == chunks_view(self.rows@),
                    mcs == bools_view(self.marks@),
                    s == seqs[c as int],
                    chunk_len == self.rows@[c as int]@.len(),
                    unmatched_view(out@) == out_pre + unmatched_in_chunk(
                        rcs[c as int].take(i as int),
                        mcs[c as int].take(i as int),
                        s,
                    ),
                    forall|t: int|
                        0 <= t < out@.len() ==> (#[trigger] out@[t]).row@.len()
                            == self.names@.len(),
                decreases chunk_len - i,
            {
                proof {
                    assert(rcs[c as int].take(i + 1).drop_last() =~= rcs[c as int].take(i as int));
                    assert(mcs[c as int].take(i + 1).drop_last() =~= mcs[c as int].take(i as int));
                    assert(rcs[c as int].take(i + 1).last() == rcs[c as int][i as int]);
                    assert(mcs[c as int].take(i + 1).last() == mcs[c as int][i as int]);
                    assert(rcs[c as int][i as int] == self.rows@[c as int]@[i as int]@);
                    assert(mcs[c as int][i as int] == self.marks@[c as int]@[i as int]);
                }
                if !self.marks[c][i] {
                    let row = copy_cells(&self.rows[c][i]);
                    let ghost rowv = row@;
                    let ghost out_snap = out@;
                    out.push(UnmatchedRow { seq: s, idx: i, row });
                    proof {
                        assert(out@ == out_snap.push(out@.last()));
                        assert(out@.last().row@ == rowv);
                        assert(out@.last().seq == s);
                        assert(out@.last().idx == i);
                        lemma_unmatched_view_push(out_snap, out@.last());
                    }
                }
                proof {
                    assert(unmatched_view(out@) =~= out_pre + unmatched_in_chunk(
                        rcs[c as int].take(i + 1),
                        mcs[c as int].take(i + 1),
                        s,
                    ));
                }
                i += 1;
            }
            proof {
                assert(rcs[c as int].take(chunk_len as int) =~= rcs[c as int]);
                assert(mcs[c as int].take(chunk_len as int) =~= mcs[c as int]);
                assert(rcs.take(c + 1).drop_last() =~= rcs.take(c as int));
                assert(mcs.take(c + 1).drop_last() =~= mcs.take(c as int));
                assert(seqs.take(c + 1).drop_last() =~= seqs.take(c as int));
                assert(rcs.take(c + 1).last() == rcs[c as int]);
                assert(mcs.take(c + 1).last() == mcs[c as int]);
                assert(seqs.take(c + 1).last() == seqs[c as int]);
            }
            c += 1;
        }
        proof {
            assert(rcs.take(num_chunks as int) =~= rcs);
            assert(mcs.take(num_chunks as int) =~= mcs);
            assert(seqs.take(num_chunks as int) =~= seqs);
        }
        out
    }

    /// The number of keys held, saturating at the machine limit.
    pub fn num_keys(&self) -> (r: usize)
        requires
            self.wf(),
        ensures
            r as int == key_total(chunks_view(self.keys@)),
    {
        let ghost kcs = chunks_view(self.keys@);
        let mut total: usize = 0;
        let mut c: usize = 0;
        proof {
            assert(kcs.take(0) =~= Seq::<Seq<Seq<Cell>>>::empty());
        }
        while c < self.keys.len()
            invariant
                0 <= c <= self.keys@.len(),
                self.wf(),
                kcs == chunks_view(self.keys@),
                total as int == key_total(kcs.take(c as int)),
            decreases self.keys.len() - c,
        {
            proof {
                assert(kcs.take(c + 1).drop_last() =~= kcs.take(c as int));
                assert(kcs.take(c + 1).last() == kcs[c as int]);
                assert(kcs[c as int].len() == self.keys@[c as int]@.len());
            }
            let n = self.keys[c].len();
            if total <= usize::MAX - n {
                total += n;
            } else {
                total = usize::MAX;
            }
            c += 1;
        }
        proof {
            assert(kcs.take(kcs.len() as int) =~= kcs);
        }
        total
    }
}

} // verus!
