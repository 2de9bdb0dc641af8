//! Build phase: partitioning build-side morsels and materializing the
//! per-partition probe tables.
//!
//! Each incoming morsel is split by partition: the rows whose key lands in a
//! partition form one chunk of that partition, tagged with the morsel's
//! sequence number. At the transition to probing the accumulated chunks of
//! each partition are inserted into a probe table in arrival order; empty
//! chunks are skipped so that chunk positions stay aligned with the table.

use vstd::prelude::*;

use crate::frame::gather_row_lists;
use crate::frame::rows_view;
use crate::frame::Cell;
use crate::keys::gen_partition_idxs;
use crate::keys::keys_of_frame;
use crate::keys::lemma_partition_idxs_in_range;
use crate::keys::partition_idxs;
use crate::keys::select_keys;
use crate::morsel::morsel_rows;
use crate::morsel::Morsel;
use crate::names::copy_names;
use crate::names::names_view;
use crate::selector::select_payload;
use crate::selector::select_row;
use crate::selector::selected_names;
use crate::selector::sel_view;
use crate::table::bools_view;
use crate::table::chunks_view;
use crate::table::ProbeTable;

verus! {

/// One partition's slice of one build morsel.
pub struct BuildChunk {
    /// The origin morsel's sequence number.
    pub seq: u64,
    /// The key rows of this partition's slice, in row order.
    pub keys: Vec<Vec<Cell>>,
    /// The payload rows aligned with the keys.
    pub rows: Vec<Vec<Cell>>,
}

/// The key rows of one partition's slice of a morsel.
pub open spec fn chunk_keys_spec(
    rows: Seq<Seq<Cell>>,
    key_idxs: Seq<usize>,
    p: int,
    n: int,
    track_unmatchable: bool,
    nulls_equal: bool,
) -> Seq<Seq<Cell>> {
    let keys = keys_of_frame(rows, key_idxs);
    partition_idxs(keys, p, n, track_unmatchable, nulls_equal).map_values(|j: int| keys[j])
}

/// The payload rows of one partition's slice of a morsel.
pub open spec fn chunk_rows_spec(
    rows: Seq<Seq<Cell>>,
    key_idxs: Seq<usize>,
    sel: Seq<Option<Seq<u8>>>,
    p: int,
    n: int,
    track_unmatchable: bool,
    nulls_equal: bool,
) -> Seq<Seq<Cell>> {
    let keys = keys_of_frame(rows, key_idxs);
    partition_idxs(keys, p, n, track_unmatchable, nulls_equal).map_values(
        |j: int| select_row(rows[j], sel),
    )
}

/// Splits every build morsel over the partitions: for each partition, one
/// chunk per morsel holding the keys and selected payload of the rows whose
/// key lands there. Rows with an unmatchable key take part only when
/// unmatched build rows must be emitted later.
pub fn partition_and_sink(
    morsels: &Vec<Morsel>,
    key_idxs: &Vec<usize>,
    sel: &Vec<Option<Vec<u8>>>,
    num_partitions: usize,
    track_unmatchable: bool,
    nulls_equal: bool,
) -> (r: Vec<Vec<BuildChunk>>)
    requires
        num_partitions > 0,
        forall|m: int| 0 <= m < morsels@.len() ==> (#[trigger] morsels@[m]).wf(),
        forall|m: int, k: int|
            0 <= m < morsels@.len() && 0 <= k < key_idxs@.len() ==> (#[trigger] key_idxs@[k]) < (
            #[trigger] morsels@[m]).df.names@.len(),
        forall|m: int| 0 <= m < morsels@.len() ==> sel@.len() == (#[trigger] morsels@[m]).df.names@.len(),
    ensures
        r@.len() == num_partitions,
        forall|p: int| 0 <= p < num_partitions ==> (#[trigger] r@[p])@.len() == morsels@.len(),
        forall|p: int, m: int|
            #![trigger r@[p]@[m]]
            0 <= p < num_partitions && 0 <= m < morsels@.len() ==> {
                &&& r@[p]@[m].seq == morsels@[m].seq
                &&& rows_view(r@[p]@[m].keys@) == chunk_keys_spec(
                    morsel_rows(morsels@[m]),
                    key_idxs@,
                    p,
                    num_partitions as int,
                    track_unmatchable,
                    nulls_equal,
                )
                &&& rows_view(r@[p]@[m].rows@) == chunk_rows_spec(
                    morsel_rows(morsels@[m]),
                    key_idxs@,
                    sel_view(sel@),
                    p,
                    num_partitions as int,
                    track_unmatchable,
                    nulls_equal,
                )
                &&& r@[p]@[m].keys@.len() == r@[p]@[m].rows@.len()
                &&& forall|t: int|
                    0 <= t < r@[p]@[m].rows@.len() ==> (#[trigger] r@[p]@[m].rows@[t])@.len()
                        == selected_names(sel_view(sel@)).len()
            },
{
    let ghost sv = sel_view(sel@);
    let mut r: Vec<Vec<BuildChunk>> = Vec::new();
    let mut p: usize = 0;
    while p < num_partitions
        invariant
            0 <= p <= num_partitions,
            num_partitions > 0,
            sv == sel_view(sel@),
            forall|m: int| 0 <= m < morsels@.len() ==> (#[trigger] morsels@[m]).wf(),
            forall|m: int, k: int|
                0 <= m < morsels@.len() && 0 <= k < key_idxs@.len() ==> (#[trigger] key_idxs@[k])
                    < (#[trigger] morsels@[m]).df.names@.len(),
            forall|m: int|
                0 <= m < morsels@.len() ==> sel@.len() == (
                #[trigger] morsels@[m]).df.names@.len(),
            r@.len() == p,
            forall|q: int| 0 <= q < p ==> (#[trigger] r@[q])@.len() == morsels@.len(),
            forall|q: int, m: int|
                #![trigger r@[q]@[m]]
                0 <= q < p && 0 <= m < morsels@.len() ==> {
                    &&& r@[q]@[m].seq == morsels@[m].seq
                    &&& rows_view(r@[q]@[m].keys@) == chunk_keys_spec(
                        morsel_rows(morsels@[m]),
                        key_idxs@,
                        q,
                        num_partitions as int,
                        track_unmatchable,
                        nulls_equal,
                    )
                    &&& rows_view(r@[q]@[m].rows@) == chunk_rows_spec(
                        morsel_rows(morsels@[m]),
                        key_idxs@,
                        sv,
                        q,
                        num_partitions as int,
                        track_unmatchable,
                        nulls_equal,
                    )
                    &&& r@[q]@[m].keys@.len() == r@[q]@[m].rows@.len()
                    &&& forall|t: int|
                        0 <= t < r@[q]@[m].rows@.len() ==> (#[trigger] r@[q]@[m].rows@[t])@.len()
                            == selected_names(sv).len()
                },
        decreases num_partitions - p,
    {
        let mut chunks: Vec<BuildChunk> = Vec::new();
        let mut m: usize = 0;
        while m < morsels.len()
            invariant
                0 <= m <= morsels@.len(),
                0 <= p < num_partitions,
                sv == sel_view(sel@),
                forall|m2: int| 0 <= m2 < morsels@.len() ==> (#[trigger] morsels@[m2]).wf(),
                forall|m2: int, k: int|
                    0 <= m2 < morsels@.len() && 0 <= k < key_idxs@.len() ==> (
                    #[trigger] key_idxs@[k]) < (#[trigger] morsels@[m2]).df.names@.len(),
                forall|m2: int|
                    0 <= m2 < morsels@.len() ==> sel@.len() == (
                    #[trigger] morsels@[m2]).df.names@.len(),
                chunks@.len() == m,
                forall|m2: int|
                    #![trigger chunks@[m2]]
                    0 <= m2 < m ==> {
                        &&& chunks@[m2].seq == morsels@[m2].seq
                        &&& rows_view(chunks@[m2].keys@) == chunk_keys_spec(
                            morsel_rows(morsels@[m2]),
                            key_idxs@,
                            p as int,
                            num_partitions as int,
                            track_unmatchable,
                            nulls_equal,
                        )
                        &&& rows_view(chunks@[m2].rows@) == chunk_rows_spec(
                            morsel_rows(morsels@[m2]),
                            key_idxs@,
                            sv,
                            p as int,
                            num_partitions as int,
                            track_unmatchable,
                            nulls_equal,
                        )
                        &&& chunks@[m2].keys@.len() == chunks@[m2].rows@.len()
                        &&& forall|t: int|
                            0 <= t < chunks@[m2].rows@.len() ==> (
                            #[trigger] chunks@[m2].rows@[t])@.len() == selected_names(sv).len()
                    },
            decreases morsels.len() - m,
        {
            let df = &morsels[m].df;
            let keys = select_keys(df, key_idxs);
            let payload = select_payload(df, sel);
            let idx_all = gen_partition_idxs(&keys, num_partitions, track_unmatchable, nulls_equal);
            let ghost kv = keys_of_frame(morsel_rows(morsels@[m as int]), key_idxs@);
            let ghost pis = partition_idxs(
                kv,
                p as int,
                num_partitions as int,
                track_unmatchable,
                nulls_equal,
            );
            proof {
                assert(rows_view(keys@) == kv);
                lemma_partition_idxs_in_range(
                    kv,
                    p as int,
                    num_partitions as int,
                    track_unmatchable,
                    nulls_equal,
                );
                assert(idx_all@[p as int]@.map_values(|u: usize| u as int) == pis);
                assert(idx_all@[p as int]@.len() == pis.len());
            }
            let idxs = &idx_all[p];
            assert(forall|t: int| 0 <= t < idxs@.len() ==> (#[trigger] idxs@[t]) < keys@.len());
            let ck = gather_row_lists(&keys, idxs);
            assert(forall|t: int|
                0 <= t < idxs@.len() ==> (#[trigger] idxs@[t]) < payload.rows@.len());
            let cr = gather_row_lists(&payload.rows, idxs);
            proof {
                assert forall|t: int| 0 <= t < pis.len() implies rows_view(ck@)[t]
                    == chunk_keys_spec(
                    morsel_rows(morsels@[m as int]),
                    key_idxs@,
                    p as int,
                    num_partitions as int,
                    track_unmatchable,
                    nulls_equal,
                )[t] by {
                    assert(idxs@[t] as int == pis[t]);
                    assert(rows_view(keys@)[pis[t]] == kv[pis[t]]);
                }
                assert(rows_view(ck@) =~= chunk_keys_spec(
                    morsel_rows(morsels@[m as int]),
                    key_idxs@,
                    p as int,
                    num_partitions as int,
                    track_unmatchable,
                    nulls_equal,
                ));
                assert forall|t: int| 0 <= t < pis.len() implies rows_view(cr@)[t]
                    == chunk_rows_spec(
                    morsel_rows(morsels@[m as int]),
                    key_idxs@,
                    sv,
                    p as int,
                    num_partitions as int,
                    track_unmatchable,
                    nulls_equal,
                )[t] by {
                    assert(idxs@[t] as int == pis[t]);
                    assert(rows_view(payload.rows@)[pis[t]] == select_row(
                        morsel_rows(morsels@[m as int])[pis[t]],
                        sv,
                    ));
                }
                assert(rows_view(cr@) =~= chunk_rows_spec(
                    morsel_rows(morsels@[m as int]),
                    key_idxs@,
                    sv,
                    p as int,
                    num_partitions as int,
                    track_unmatchable,
                    nulls_equal,
                ));
                assert(selected_names(sv).len() == payload.names@.len()) by {
                    assert(names_view(payload.names@).len() == payload.names@.len());
                }
                assert(forall|t: int|
                    0 <= t < cr@.len() ==> (#[trigger] cr@[t])@.len() == selected_names(sv).len());
            }
            let seq = morsels[m].seq;
            chunks.push(BuildChunk { seq, keys: ck, rows: cr });
            m += 1;
        }
        r.push(chunks);
        p += 1;
    }
    r
}

/// Tables built from partitioned chunks hold only keys of their own
/// partition.
pub proof fn lemma_built_tables_partitioned(
    morsels: Seq<Morsel>,
    key_idxs: Seq<usize>,
    sel: Seq<Option<Seq<u8>>>,
    num_partitions: int,
    track_unmatchable: bool,
    nulls_equal: bool,
    parts: Seq<Vec<BuildChunk>>,
    tables: Seq<crate::table::ProbeTable>,
)
    requires
        num_partitions > 0,
        parts.len() == num_partitions,
        tables.len() == num_partitions,
        forall|p: int| 0 <= p < num_partitions ==> (#[trigger] parts[p])@.len() == morsels.len(),
        forall|p: int, m: int|
            #![trigger parts[p]@[m]]
            0 <= p < num_partitions && 0 <= m < morsels.len() ==> rows_view(parts[p]@[m].keys@)
                == chunk_keys_spec(
                morsel_rows(morsels[m]),
                key_idxs,
                p,
                num_partitions,
                track_unmatchable,
                nulls_equal,
            ),
        forall|p: int|
            #![trigger tables[p]]
            0 <= p < num_partitions ==> chunks_view(tables[p].keys@) == kept_idxs(
                parts[p]@,
            ).map_values(|j: int| rows_view(parts[p]@[j].keys@)),
    ensures
        crate::probe::tables_partitioned(tables),
{
    assert forall|q: int, c: int, i: int|
        #![trigger chunks_view(tables[q].keys@)[c][i]]
        0 <= q < tables.len() && 0 <= c < tables[q].keys@.len() && 0 <= i < chunks_view(
            tables[q].keys@,
        )[c].len() implies crate::keys::partition_of(
        chunks_view(tables[q].keys@)[c][i],
        tables.len() as int,
    ) == q by {
        lemma_kept_idxs_in_range(parts[q]@);
        let mapped = kept_idxs(parts[q]@).map_values(|j: int| rows_view(parts[q]@[j].keys@));
        assert(chunks_view(tables[q].keys@) == mapped);
        assert(c < mapped.len());
        let j = kept_idxs(parts[q]@)[c];
        assert(mapped[c] == rows_view(parts[q]@[j].keys@));
        assert(0 <= j < parts[q]@.len());
        assert(rows_view(parts[q]@[j].keys@) == chunk_keys_spec(
            morsel_rows(morsels[j]),
            key_idxs,
            q,
            num_partitions,
            track_unmatchable,
            nulls_equal,
        ));
        let rows = morsel_rows(morsels[j]);
        let keys = keys_of_frame(rows, key_idxs);
        let pis = crate::keys::partition_idxs(
            keys,
            q,
            num_partitions,
            track_unmatchable,
            nulls_equal,
        );
        crate::keys::lemma_partition_idxs_members(
            keys,
            q,
            num_partitions,
            track_unmatchable,
            nulls_equal,
        );
        assert(chunks_view(tables[q].keys@)[c] == pis.map_values(|t: int| keys[t]));
        assert(chunks_view(tables[q].keys@)[c][i] == keys[pis[i]]);
        assert(crate::keys::partition_of(keys[pis[i]], num_partitions) == q);
    }
}

/// The positions of the non-empty chunks of one partition, in order.
pub open spec fn kept_idxs(chunks: Seq<BuildChunk>) -> Seq<int>
    decreases chunks.len(),
{
    if chunks.len() == 0 {
        Seq::empty()
    } else {
        kept_idxs(chunks.drop_last()) + if chunks.last().keys@.len() > 0 {
            seq![chunks.len() - 1]
        } else {
            Seq::empty()
        }
    }
}

/// Every kept position indexes into the chunk list and names a non-empty
/// chunk.
pub proof fn lemma_kept_idxs_in_range(chunks: Seq<BuildChunk>)
    ensures
        forall|t: int|
            0 <= t < kept_idxs(chunks).len() ==> 0 <= #[trigger] kept_idxs(chunks)[t]
                < chunks.len() && chunks[kept_idxs(chunks)[t]].keys@.len() > 0,
    decreases chunks.len(),
{
    if chunks.len() > 0 {
        lemma_kept_idxs_in_range(chunks.drop_last());
        let w = kept_idxs(chunks);
        let q = kept_idxs(chunks.drop_last());
        assert forall|t: int| 0 <= t < w.len() implies 0 <= #[trigger] w[t] < chunks.len()
            && chunks[w[t]].keys@.len() > 0 by {
            if t < q.len() {
                assert(w[t] == q[t]);
                assert(chunks.drop_last()[q[t]] == chunks[q[t]]);
            } else {
                assert(w[t] == chunks.len() - 1);
            }
        }
    }
}

/// Materializes the probe table of every partition: the non-empty chunks of
/// the partition are inserted in arrival order, unmarked, keeping their
/// origin sequence numbers.
pub fn finalize(parts: Vec<Vec<BuildChunk>>, names: &Vec<Vec<u8>>) -> (r: Vec<ProbeTable>)
    requires
        forall|p: int, m: int|
            #![trigger parts@[p]@[m]]
            0 <= p < parts@.len() && 0 <= m < parts@[p]@.len() ==> {
                &&& parts@[p]@[m].keys@.len() == parts@[p]@[m].rows@.len()
                &&& forall|t: int|
                    0 <= t < parts@[p]@[m].rows@.len() ==> (
                    #[trigger] parts@[p]@[m].rows@[t])@.len() == names@.len()
            },
    ensures
        r@.len() == parts@.len(),
        forall|p: int|
            #![trigger r@[p]]
            0 <= p < parts@.len() ==> {
                &&& r@[p].wf()
                &&& r@[p].names@.len() == names@.len()
                &&& names_view(r@[p].names@) == names_view(names@)
                &&& chunks_view(r@[p].keys@) == kept_idxs(parts@[p]@).map_values(
                    |j: int| rows_view(parts@[p]@[j].keys@),
                )
                &&& chunks_view(r@[p].rows@) == kept_idxs(parts@[p]@).map_values(
                    |j: int| rows_view(parts@[p]@[j].rows@),
                )
                &&& r@[p].chunk_seqs@ == kept_idxs(parts@[p]@).map_values(
                    |j: int| parts@[p]@[j].seq,
                )
                &&& forall|c: int, i: int|
                    #![trigger bools_view(r@[p].marks@)[c][i]]
                    0 <= c < r@[p].marks@.len() && 0 <= i < r@[p].marks@[c]@.len() ==> !bools_view(
                        r@[p].marks@,
                    )[c][i]
            },
{
    let ghost parts0 = parts@;
    let mut parts = parts;
    let mut r: Vec<ProbeTable> = Vec::new();
    let ghost mut p: int = 0;
    while parts.len() > 0
        invariant
            0 <= p <= parts0.len(),
            parts@ == parts0.skip(p),
            forall|q: int, m: int|
                #![trigger parts0[q]@[m]]
                0 <= q < parts0.len() && 0 <= m < parts0[q]@.len() ==> {
                    &&& parts0[q]@[m].keys@.len() == parts0[q]@[m].rows@.len()
                    &&& forall|t: int|
                        0 <= t < parts0[q]@[m].rows@.len() ==> (
                        #[trigger] parts0[q]@[m].rows@[t])@.len() == names@.len()
                },
            r@.len() == p,
            forall|q: int|
                #![trigger r@[q]]
                0 <= q < p ==> {
                    &&& r@[q].wf()
                    &&& r@[q].names@.len() == names@.len()
                    &&& names_view(r@[q].names@) == names_view(names@)
                    &&& chunks_view(r@[q].keys@) == kept_idxs(parts0[q]@).map_values(
                        |j: int| rows_view(parts0[q]@[j].keys@),
                    )
                    &&& chunks_view(r@[q].rows@) == kept_idxs(parts0[q]@).map_values(
                        |j: int| rows_view(parts0[q]@[j].rows@),
                    )
                    &&& r@[q].chunk_seqs@ == kept_idxs(parts0[q]@).map_values(
                        |j: int| parts0[q]@[j].seq,
                    )
                    &&& forall|c: int, i: int|
                        #![trigger bools_view(r@[q].marks@)[c][i]]
                        0 <= c < r@[q].marks@.len() && 0 <= i < r@[q].marks@[c]@.len()
                            ==> !bools_view(r@[q].marks@)[c][i]
                },
        decreases parts.len(),
    {
        assert(p < parts0.len()) by {
            assert(parts0.skip(p).len() > 0);
        }
        let chunk_list = parts.remove(0);
        assert(chunk_list == parts0[p]);
        assert(parts@ =~= parts0.skip(p + 1));
        let ghost cl = parts0[p]@;
        let mut table = ProbeTable::new_empty(copy_names(names));
        let ghost cl0 = chunk_list@;
        let mut chunk_list = chunk_list;
        let ghost mut m: int = 0;
        proof {
            assert(cl0 == cl);
            assert(cl.take(0) =~= Seq::<BuildChunk>::empty());
            lemma_kept_idxs_in_range(cl);
        }
        while chunk_list.len() > 0
            invariant
                0 <= m <= cl.len(),
                chunk_list@ == cl.skip(m),
                forall|m2: int|
                    #![trigger cl[m2]]
                    0 <= m2 < cl.len() ==> {
                        &&& cl[m2].keys@.len() == cl[m2].rows@.len()
                        &&& forall|t: int|
                            0 <= t < cl[m2].rows@.len() ==> (#[trigger] cl[m2].rows@[t])@.len()
                                == names@.len()
                    },
                table.wf(),
                table.names@.len() == names@.len(),
                names_view(table.names@) == names_view(names@),
                chunks_view(table.keys@) == kept_idxs(cl.take(m)).map_values(
                    |j: int| rows_view(cl[j].keys@),
                ),
                chunks_view(table.rows@) == kept_idxs(cl.take(m)).map_values(
                    |j: int| rows_view(cl[j].rows@),
                ),
                table.chunk_seqs@ == kept_idxs(cl.take(m)).map_values(|j: int| cl[j].seq),
                forall|c: int, i: int|
                    #![trigger bools_view(table.marks@)[c][i]]
                    0 <= c < table.marks@.len() && 0 <= i < table.marks@[c]@.len() ==> !bools_view(
                        table.marks@,
                    )[c][i],
            decreases chunk_list.len(),
        {
            assert(m < cl.len()) by {
                assert(cl.skip(m).len() > 0);
            }
            let chunk = chunk_list.remove(0);
            assert(chunk == cl[m]);
            assert(chunk_list@ =~= cl.skip(m + 1));
            proof {
                assert(cl.take(m + 1).drop_last() =~= cl.take(m));
                assert(cl.take(m + 1).last() == cl[m]);
            }
            let n_rows = chunk.keys.len();
            if n_rows > 0 {
                let ghost pre_keys = chunks_view(table.keys@);
                let ghost pre_rows = chunks_view(table.rows@);
                let ghost pre_seqs = table.chunk_seqs@;
                let ghost ckv = rows_view(chunk.keys@);
                let ghost crv = rows_view(chunk.rows@);
                let seq = chunk.seq;
                table.insert_chunk(chunk.keys, chunk.rows, seq);
                proof {
                    assert(kept_idxs(cl.take(m + 1)) =~= kept_idxs(cl.take(m)).push(m));
                    assert(chunks_view(table.keys@) =~= kept_idxs(cl.take(m + 1)).map_values(
                        |j: int| rows_view(cl[j].keys@),
                    ));
                    assert(chunks_view(table.rows@) =~= kept_idxs(cl.take(m + 1)).map_values(
                        |j: int| rows_view(cl[j].rows@),
                    ));
                    assert(table.chunk_seqs@ =~= kept_idxs(cl.take(m + 1)).map_values(
                        |j: int| cl[j].seq,
                    ));
                }
            } else {
                proof {
                    assert(kept_idxs(cl.take(m + 1)) =~= kept_idxs(cl.take(m)));
                }
            }
            proof {
                m = m + 1;
            }
        }
        proof {
            assert(cl.skip(m).len() == 0);
            assert(cl.take(m) =~= cl);
        }
        r.push(table);
        proof {
            p = p + 1;
        }
    }
    proof {
        assert(parts0.skip(p).len() == 0);
        assert(p == parts0.len());
    }
    r
}

/// The positions of the morsels whose partition slice is non-empty, in
/// order.
pub open spec fn kept_morsels(
    ms: Seq<Morsel>,
    key_idxs: Seq<usize>,
    p: int,
    n: int,
    track_unmatchable: bool,
    nulls_equal: bool,
) -> Seq<int>
    decreases ms.len(),
{
    if ms.len() == 0 {
        Seq::empty()
    } else {
        kept_morsels(ms.drop_last(), key_idxs, p, n, track_unmatchable, nulls_equal) + (
        if chunk_keys_spec(
            morsel_rows(ms.last()),
            key_idxs,
            p,
            n,
            track_unmatchable,
            nulls_equal,
        ).len() > 0 {
            seq![ms.len() - 1]
        } else {
            Seq::empty()
        })
    }
}

/// The kept chunks of a partition are exactly the morsels whose slice for
/// that partition is non-empty.
pub proof fn lemma_kept_idxs_as_morsels(
    cl: Seq<BuildChunk>,
    ms: Seq<Morsel>,
    key_idxs: Seq<usize>,
    p: int,
    n: int,
    track_unmatchable: bool,
    nulls_equal: bool,
)
    requires
        cl.len() == ms.len(),
        forall|m: int|
            0 <= m < ms.len() ==> rows_view((#[trigger] cl[m]).keys@) == chunk_keys_spec(
                morsel_rows(ms[m]),
                key_idxs,
                p,
                n,
                track_unmatchable,
                nulls_equal,
            ),
    ensures
        kept_idxs(cl) == kept_morsels(ms, key_idxs, p, n, track_unmatchable, nulls_equal),
    decreases cl.len(),
{
    if cl.len() > 0 {
        assert(forall|m: int|
            0 <= m < ms.len() - 1 ==> (#[trigger] cl.drop_last()[m]) == cl[m]);
        assert(forall|m: int|
            0 <= m < ms.len() - 1 ==> (#[trigger] ms.drop_last()[m]) == ms[m]);
        lemma_kept_idxs_as_morsels(
            cl.drop_last(),
            ms.drop_last(),
            key_idxs,
            p,
            n,
            track_unmatchable,
            nulls_equal,
        );
        assert(rows_view(cl.last().keys@).len() == cl.last().keys@.len());
        assert(cl.last().keys@.len() == chunk_keys_spec(
            morsel_rows(ms.last()),
            key_idxs,
            p,
            n,
            track_unmatchable,
            nulls_equal,
        ).len());
    }
}

/// Every kept morsel position indexes into the morsel list and names a
/// non-empty partition slice.
pub proof fn lemma_kept_idxs_in_range_morsels(
    ms: Seq<Morsel>,
    key_idxs: Seq<usize>,
    p: int,
    n: int,
    track_unmatchable: bool,
    nulls_equal: bool,
)
    ensures
        forall|t: int|
            0 <= t < kept_morsels(ms, key_idxs, p, n, track_unmatchable, nulls_equal).len()
                ==> {
                let j = #[trigger] kept_morsels(
                    ms,
                    key_idxs,
                    p,
                    n,
                    track_unmatchable,
                    nulls_equal,
                )[t];
                &&& 0 <= j < ms.len()
                &&& chunk_keys_spec(
                    morsel_rows(ms[j]),
                    key_idxs,
                    p,
                    n,
                    track_unmatchable,
                    nulls_equal,
                ).len() > 0
            },
    decreases ms.len(),
{
    if ms.len() > 0 {
        lemma_kept_idxs_in_range_morsels(
            ms.drop_last(),
            key_idxs,
            p,
            n,
            track_unmatchable,
            nulls_equal,
        );
        let w = kept_morsels(ms, key_idxs, p, n, track_unmatchable, nulls_equal);
        let q = kept_morsels(ms.drop_last(), key_idxs, p, n, track_unmatchable, nulls_equal);
        assert forall|t: int| 0 <= t < w.len() implies {
            let j = #[trigger] w[t];
            &&& 0 <= j < ms.len()
            &&& chunk_keys_spec(
                morsel_rows(ms[j]),
                key_idxs,
                p,
                n,
                track_unmatchable,
                nulls_equal,
            ).len() > 0
        } by {
            if t < q.len() {
                assert(w[t] == q[t]);
                assert(ms.drop_last()[q[t]] == ms[q[t]]);
            } else {
                assert(w[t] == ms.len() - 1);
            }
        }
    }
}

} // verus!
