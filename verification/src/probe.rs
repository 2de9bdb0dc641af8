//! Probe phase: looking morsel rows up against the per-partition tables.
//!
//! Each probe row is matched against the table of its key's partition; the
//! matching build payload rows are stacked with the probe payload row, build
//! columns first when the left side built the table. A probe row without a
//! match is emitted padded with nulls when the probe side's unmatched rows
//! are wanted. The rows are processed in a caller-chosen order: row order
//! when the probe side's order must be preserved, partition order otherwise.

use vstd::prelude::*;

use crate::frame::concat_cells;
use crate::frame::copy_cells;
use crate::frame::null_row;
use crate::frame::rows_view;
use crate::frame::Cell;
use crate::keys::key_is_null_exec;
use crate::keys::key_unmatchable;
use crate::keys::keys_match;
use crate::keys::partition_idxs;
use crate::keys::partition_of;
use crate::keys::partition_of_exec;
use crate::table::chunks_view;
use crate::table::bools_view;
use crate::table::matches_in_table;
use crate::table::ProbeTable;

verus! {

/// A joined output row: build columns first when the left side built the
/// table, probe columns first otherwise.
pub open spec fn combine_row(b: Seq<Cell>, p: Seq<Cell>, left_is_build: bool) -> Seq<Cell> {
    if left_is_build {
        b + p
    } else {
        p + b
    }
}

/// Every key of every table chunk lands in the table's own partition.
pub open spec fn tables_partitioned(tables: Seq<ProbeTable>) -> bool {
    forall|q: int, c: int, i: int|
        #![trigger chunks_view(tables[q].keys@)[c][i]]
        0 <= q < tables.len() && 0 <= c < tables[q].keys@.len() && 0 <= i
            < chunks_view(tables[q].keys@)[c].len() ==> partition_of(
            chunks_view(tables[q].keys@)[c][i],
            tables.len() as int,
        ) == q
}

/// The build payload rows matching one probe key, from the table of the
/// key's partition, in insertion order.
pub open spec fn row_matches(tables: Seq<ProbeTable>, k: Seq<Cell>, nulls_equal: bool) -> Seq<
    Seq<Cell>,
> {
    let p = partition_of(k, tables.len() as int);
    matches_in_table(
        chunks_view(tables[p].keys@),
        chunks_view(tables[p].rows@),
        k,
        nulls_equal,
    )
}

/// The output rows of one probe row: its matches combined with its payload,
/// or one null-padded row when it has no match and the probe side's
/// unmatched rows are emitted.
pub open spec fn probe_row_out(
    tables: Seq<ProbeTable>,
    k: Seq<Cell>,
    prow: Seq<Cell>,
    nulls_equal: bool,
    emit_unmatched: bool,
    left_is_build: bool,
    build_width: nat,
) -> Seq<Seq<Cell>> {
    if key_unmatchable(k, nulls_equal) {
        if emit_unmatched {
            seq![combine_row(null_row(build_width), prow, left_is_build)]
        } else {
            Seq::empty()
        }
    } else {
        let ms = row_matches(tables, k, nulls_equal);
        if ms.len() == 0 {
            if emit_unmatched {
                seq![combine_row(null_row(build_width), prow, left_is_build)]
            } else {
                Seq::empty()
            }
        } else {
            ms.map_values(|b: Seq<Cell>| combine_row(b, prow, left_is_build))
        }
    }
}

/// The output rows of a list of probe rows processed in the given order.
pub open spec fn rows_for_order(
    tables: Seq<ProbeTable>,
    order: Seq<int>,
    keys: Seq<Seq<Cell>>,
    prows: Seq<Seq<Cell>>,
    nulls_equal: bool,
    emit_unmatched: bool,
    left_is_build: bool,
    build_width: nat,
) -> Seq<Seq<Cell>>
    decreases order.len(),
{
    if order.len() == 0 {
        Seq::empty()
    } else {
        rows_for_order(
            tables,
            order.drop_last(),
            keys,
            prows,
            nulls_equal,
            emit_unmatched,
            left_is_build,
            build_width,
        ) + probe_row_out(
            tables,
            keys[order.last()],
            prows[order.last()],
            nulls_equal,
            emit_unmatched,
            left_is_build,
            build_width,
        )
    }
}

/// The row-order processing order: every row in position order.
pub open spec fn identity_ord(h: nat) -> Seq<int> {
    Seq::new(h, |i: int| i)
}

/// The partition-major processing order: the rows of partition 0 in row
/// order, then partition 1, and so on.
pub open spec fn partition_major_upto(
    keys: Seq<Seq<Cell>>,
    p: int,
    n: int,
    include_nulls: bool,
    nulls_equal: bool,
) -> Seq<int>
    decreases p,
{
    if p <= 0 {
        Seq::empty()
    } else {
        partition_major_upto(keys, p - 1, n, include_nulls, nulls_equal) + partition_idxs(
            keys,
            p - 1,
            n,
            include_nulls,
            nulls_equal,
        )
    }
}

/// Builds the row-order processing order.
pub fn identity_order(h: usize) -> (r: Vec<usize>)
    ensures
        r@.map_values(|u: usize| u as int) == identity_ord(h as nat),
        forall|t: int| 0 <= t < r@.len() ==> (#[trigger] r@[t]) < h,
{
    let mut r: Vec<usize> = Vec::new();
    let mut i: usize = 0;
    while i < h
        invariant
            0 <= i <= h,
            r@.len() == i,
            forall|t: int| 0 <= t < i ==> (#[trigger] r@[t]) == t,
        decreases h - i,
    {
        r.push(i);
        i += 1;
    }
    proof {
        assert(r@.map_values(|u: usize| u as int) =~= identity_ord(h as nat));
    }
    r
}

/// Builds the partition-major processing order from the per-partition index
/// lists.
pub fn partition_major_order(
    keys: &Vec<Vec<Cell>>,
    num_partitions: usize,
    include_nulls: bool,
    nulls_equal: bool,
) -> (r: Vec<usize>)
    requires
        num_partitions > 0,
    ensures
        r@.map_values(|u: usize| u as int) == partition_major_upto(
            rows_view(keys@),
            num_partitions as int,
            num_partitions as int,
            include_nulls,
            nulls_equal,
        ),
        forall|t: int| 0 <= t < r@.len() ==> (#[trigger] r@[t]) < keys@.len(),
{
    let ghost kv = rows_view(keys@);
    let buckets = crate::keys::gen_partition_idxs(keys, num_partitions, include_nulls, nulls_equal);
    let mut r: Vec<usize> = Vec::new();
    let mut p: usize = 0;
    proof {
        assert(r@.map_values(|u: usize| u as int) =~= partition_major_upto(
            kv,
            0,
            num_partitions as int,
            include_nulls,
            nulls_equal,
        ));
    }
    while p < num_partitions
        invariant
            0 <= p <= num_partitions,
            num_partitions > 0,
            kv == rows_view(keys@),
            buckets@.len() == num_partitions,
            forall|q: int|
                0 <= q < num_partitions ==> (#[trigger] buckets@[q])@.map_values(
                    |u: usize| u as int,
                ) == partition_idxs(kv, q, num_partitions as int, include_nulls, nulls_equal),
            forall|q: int, t: int|
                0 <= q < num_partitions && 0 <= t < buckets@[q]@.len() ==> (
                #[trigger] buckets@[q]@[t]) < keys@.len(),
            r@.map_values(|u: usize| u as int) == partition_major_upto(
                kv,
                p as int,
                num_partitions as int,
                include_nulls,
                nulls_equal,
            ),
            forall|t: int| 0 <= t < r@.len() ==> (#[trigger] r@[t]) < keys@.len(),
        decreases num_partitions - p,
    {
        let ghost r_pre = r@.map_values(|u: usize| u as int);
        let mut k: usize = 0;
        while k < buckets[p].len()
            invariant
                0 <= k <= buckets@[p as int]@.len(),
                0 <= p < num_partitions,
                buckets@.len() == num_partitions,
                forall|q: int, t: int|
                    0 <= q < num_partitions && 0 <= t < buckets@[q]@.len() ==> (
                    #[trigger] buckets@[q]@[t]) < keys@.len(),
                r@.map_values(|u: usize| u as int) == r_pre + buckets@[p as int]@.take(
                    k as int,
                ).map_values(|u: usize| u as int),
                forall|t: int| 0 <= t < r@.len() ==> (#[trigger] r@[t]) < keys@.len(),
            decreases buckets@[p as int]@.len() - k,
        {
            let ghost r_snap = r@;
            let val = buckets[p][k];
            r.push(val);
            proof {
                assert(r@ == r_snap.push(val));
                let bt = buckets@[p as int]@.take(k + 1);
                assert(bt.drop_last() =~= buckets@[p as int]@.take(k as int));
                let target = r_pre + bt.map_values(|u: usize| u as int);
                assert(r_snap.map_values(|u: usize| u as int).len() == r_snap.len());
                assert(r_snap.map_values(|u: usize| u as int) == r_pre + buckets@[p as int]@.take(
                    k as int,
                ).map_values(|u: usize| u as int));
                assert(r_snap.len() == r_pre.len() + k);
                assert(r@.map_values(|u: usize| u as int).len() == target.len());
                assert forall|t: int| 0 <= t < r@.len() implies r@.map_values(
                    |u: usize| u as int,
                )[t] == target[t] by {
                    if t < r_snap.len() {
                        assert(r@[t] == r_snap[t]);
                        assert(r_snap.map_values(|u: usize| u as int)[t] == r_snap[t] as int);
                    } else {
                        assert(r@[t] == val);
                        assert(bt[k as int] == val);
                        assert(bt.map_values(|u: usize| u as int)[k as int] == val as int);
                    }
                }
                assert(r@.map_values(|u: usize| u as int) =~= target);
            }
            k += 1;
        }
        proof {
            assert(buckets@[p as int]@.take(buckets@[p as int]@.len() as int) =~= buckets@[
            p as int]@);
            assert(partition_major_upto(
                kv,
                p + 1,
                num_partitions as int,
                include_nulls,
                nulls_equal,
            ) == partition_major_upto(kv, p as int, num_partitions as int, include_nulls, nulls_equal)
                + partition_idxs(kv, p as int, num_partitions as int, include_nulls, nulls_equal));
            assert(r@.map_values(|u: usize| u as int) =~= partition_major_upto(
                kv,
                p + 1,
                num_partitions as int,
                include_nulls,
                nulls_equal,
            ));
        }
        p += 1;
    }
    r
}

/// The mark a build key carries after a list of probe keys was processed.
pub open spec fn probed_mark(
    old_mark: bool,
    bk: Seq<Cell>,
    order: Seq<int>,
    keys: Seq<Seq<Cell>>,
    nulls_equal: bool,
    mark_matches: bool,
) -> bool {
    old_mark || (mark_matches && exists|t: int|
        0 <= t < order.len() && keys_match(bk, keys[order[t]], nulls_equal))
}

/// Probes the rows of one morsel in the given order.
///
/// Returns the joined output rows; marks every matched build key when asked
/// to. The output is exactly the concatenation, over the processed rows in
/// order, of each row's matches (or its null-padded row), and a build key
/// ends up marked exactly when it was marked before or some processed probe
/// key matches it.
pub fn probe_rows(
    tables: &mut Vec<ProbeTable>,
    order: &Vec<usize>,
    keys: &Vec<Vec<Cell>>,
    prows: &Vec<Vec<Cell>>,
    nulls_equal: bool,
    mark_matches: bool,
    emit_unmatched: bool,
    left_is_build: bool,
    build_width: usize,
) -> (out: Vec<Vec<Cell>>)
    requires
        old(tables)@.len() > 0,
        forall|q: int| 0 <= q < old(tables)@.len() ==> (#[trigger] old(tables)@[q]).wf(),
        forall|q: int|
            0 <= q < old(tables)@.len() ==> (#[trigger] old(tables)@[q]).names@.len()
                == build_width,
        tables_partitioned(old(tables)@),
        keys@.len() == prows@.len(),
        forall|t: int| 0 <= t < order@.len() ==> (#[trigger] order@[t]) < keys@.len(),
    ensures
        final(tables)@.len() == old(tables)@.len(),
        forall|q: int|
            #![trigger final(tables)@[q]]
            0 <= q < old(tables)@.len() ==> {
                &&& final(tables)@[q].wf()
                &&& final(tables)@[q].names@ == old(tables)@[q].names@
                &&& final(tables)@[q].keys@ == old(tables)@[q].keys@
                &&& final(tables)@[q].rows@ == old(tables)@[q].rows@
                &&& final(tables)@[q].chunk_seqs@ == old(tables)@[q].chunk_seqs@
                &&& final(tables)@[q].marks@.len() == old(tables)@[q].marks@.len()
            },
        forall|q: int, c: int|
            #![trigger final(tables)@[q].marks@[c]]
            0 <= q < old(tables)@.len() && 0 <= c < old(tables)@[q].marks@.len()
                ==> final(tables)@[q].marks@[c]@.len() == old(tables)@[q].marks@[c]@.len(),
        forall|q: int, c: int, i: int|
            #![trigger final(tables)@[q].marks@[c]@[i]]
            0 <= q < old(tables)@.len() && 0 <= c < old(tables)@[q].marks@.len() && 0 <= i < old(
                tables,
            )@[q].marks@[c]@.len() ==> final(tables)@[q].marks@[c]@[i] == probed_mark(
                old(tables)@[q].marks@[c]@[i],
                chunks_view(old(tables)@[q].keys@)[c][i],
                order@.map_values(|u: usize| u as int),
                rows_view(keys@),
                nulls_equal,
                mark_matches,
            ),
        rows_view(out@) == rows_for_order(
            old(tables)@,
            order@.map_values(|u: usize| u as int),
            rows_view(keys@),
            rows_view(prows@),
            nulls_equal,
            emit_unmatched,
            left_is_build,
            build_width as nat,
        ),
{
    let ghost tables0 = tables@;
    let ghost kv = rows_view(keys@);
    let ghost pv = rows_view(prows@);
    let ghost ord = order@.map_values(|u: usize| u as int);
    let n = tables.len();
    let mut out: Vec<Vec<Cell>> = Vec::new();
    let mut t: usize = 0;
    proof {
        assert(ord.take(0) =~= Seq::<int>::empty());
    }
    while t < order.len()
        invariant
            0 <= t <= order@.len(),
            n == tables0.len(),
            n > 0,
            tables0 == old(tables)@,
            kv == rows_view(keys@),
            pv == rows_view(prows@),
            ord == order@.map_values(|u: usize| u as int),
            keys@.len() == prows@.len(),
            forall|t2: int| 0 <= t2 < order@.len() ==> (#[trigger] order@[t2]) < keys@.len(),
            forall|q: int| 0 <= q < tables0.len() ==> (#[trigger] tables0[q]).wf(),
            forall|q: int|
                0 <= q < tables0.len() ==> (#[trigger] tables0[q]).names@.len() == build_width,
            tables_partitioned(tables0),
            tables@.len() == n,
            forall|q: int|
                #![trigger tables@[q]]
                0 <= q < n ==> {
                    &&& tables@[q].wf()
                    &&& tables@[q].names@ == tables0[q].names@
                    &&& tables@[q].keys@ == tables0[q].keys@
                    &&& tables@[q].rows@ == tables0[q].rows@
                    &&& tables@[q].chunk_seqs@ == tables0[q].chunk_seqs@
                    &&& tables@[q].marks@.len() == tables0[q].marks@.len()
                },
            forall|q: int, c: int|
                #![trigger tables@[q].marks@[c]]
                0 <= q < n && 0 <= c < tables0[q].marks@.len() ==> tables@[q].marks@[c]@.len()
                    == tables0[q].marks@[c]@.len(),
            forall|q: int, c: int, i: int|
                #![trigger tables@[q].marks@[c]@[i]]
                0 <= q < n && 0 <= c < tables0[q].marks@.len() && 0 <= i
                    < tables0[q].marks@[c]@.len() ==> tables@[q].marks@[c]@[i] == probed_mark(
                    tables0[q].marks@[c]@[i],
                    chunks_view(tables0[q].keys@)[c][i],
                    ord.take(t as int),
                    kv,
                    nulls_equal,
                    mark_matches,
                ),
            rows_view(out@) == rows_for_order(
                tables0,
                ord.take(t as int),
                kv,
                pv,
                nulls_equal,
                emit_unmatched,
                left_is_build,
                build_width as nat,
            ),
        decreases order.len() - t,
    {
        let j = order[t];
        let ghost out_round_pre = rows_view(out@);
        let ghost tables_pre = tables@;
        proof {
            assert(ord.take(t + 1).drop_last() =~= ord.take(t as int));
            assert(ord.take(t + 1).last() == ord[t as int]);
            assert(ord[t as int] == j as int);
            assert(kv[j as int] == keys@[j as int]@);
            assert(pv[j as int] == prows@[j as int]@);
        }
        let k = &keys[j];
        let unmatchable = if nulls_equal {
            false
        } else {
            key_is_null_exec(k)
        };
        let ghost this_out = probe_row_out(
            tables0,
            kv[j as int],
            pv[j as int],
            nulls_equal,
            emit_unmatched,
            left_is_build,
            build_width as nat,
        );
        if unmatchable {
            if emit_unmatched {
                let mut nulls: Vec<Cell> = Vec::new();
                let mut w: usize = 0;
                while w < build_width
                    invariant
                        0 <= w <= build_width,
                        nulls@.len() == w,
                        forall|x: int| 0 <= x < w ==> nulls@[x] is None,
                    decreases build_width - w,
                {
                    nulls.push(None);
                    w += 1;
                }
                assert(nulls@ =~= null_row(build_width as nat));
                let row = if left_is_build {
                    concat_cells(&nulls, &prows[j])
                } else {
                    concat_cells(&prows[j], &nulls)
                };
                let ghost rowv = row@;
                let ghost out_snap = out@;
                out.push(row);
                proof {
                    assert(out@ == out_snap.push(out@.last()));
                    assert(out@.last()@ == rowv);
                    crate::table::lemma_rows_view_push(out_snap, out@.last());
                    assert(this_out =~= seq![rowv]);
                }
            }
        } else {
            let p = partition_of_exec(k, n);
            let mut tbl = tables.remove(p);
            assert(tbl == tables_pre[p as int]);
            let ms = tbl.probe_one(k, nulls_equal, mark_matches);
            let ghost tbl_after = tbl;
            tables.insert(p, tbl);
            proof {
                assert(tables@ =~= tables_pre.update(p as int, tbl_after));
                assert(k@ == kv[j as int]);
                assert(rows_view(ms@) == row_matches(tables0, kv[j as int], nulls_equal));
                assert forall|q: int, c: int, i: int|
                    #![trigger tables@[q].marks@[c]@[i]]
                    0 <= q < n && 0 <= c < tables0[q].marks@.len() && 0 <= i
                        < tables0[q].marks@[c]@.len() implies tables@[q].marks@[c]@[i] == (
                tables_pre[q].marks@[c]@[i] || (mark_matches && keys_match(
                    chunks_view(tables0[q].keys@)[c][i],
                    kv[j as int],
                    nulls_equal,
                ))) by {
                    let bk = chunks_view(tables0[q].keys@)[c][i];
                    if q == p as int {
                        assert(tables@[q] == tbl_after);
                        assert(tables_pre[q].keys@ == tables0[q].keys@);
                        assert(tables_pre[q].marks@.len() == tables0[q].marks@.len());
                        assert(bools_view(tbl_after.marks@)[c][i] == tbl_after.marks@[c]@[i]);
                        assert(bools_view(tables_pre[q].marks@)[c][i]
                            == tables_pre[q].marks@[c]@[i]);
                        assert(chunks_view(tables_pre[q].keys@)[c][i] == bk);
                    } else {
                        assert(tables@[q] == tables_pre[q]);
                        assert(partition_of(bk, n as int) == q);
                        if keys_match(bk, kv[j as int], nulls_equal) {
                            assert(partition_of(bk, n as int) == partition_of(
                                kv[j as int],
                                n as int,
                            ));
                            assert(false);
                        }
                    }
                }
            }
            let mut i2: usize = 0;
            let ghost msv = rows_view(ms@);
            proof {
                if msv.len() > 0 {
                    assert(this_out == msv.map_values(
                        |b: Seq<Cell>| combine_row(b, pv[j as int], left_is_build),
                    ));
                }
            }
            if ms.len() == 0 {
                if emit_unmatched {
                    let mut nulls: Vec<Cell> = Vec::new();
                    let mut w: usize = 0;
                    while w < build_width
                        invariant
                            0 <= w <= build_width,
                            nulls@.len() == w,
                            forall|x: int| 0 <= x < w ==> nulls@[x] is None,
                        decreases build_width - w,
                    {
                        nulls.push(None);
                        w += 1;
                    }
                    assert(nulls@ =~= null_row(build_width as nat));
                    let row = if left_is_build {
                        concat_cells(&nulls, &prows[j])
                    } else {
                        concat_cells(&prows[j], &nulls)
                    };
                    let ghost rowv = row@;
                    let ghost out_snap = out@;
                    out.push(row);
                    proof {
                        assert(out@ == out_snap.push(out@.last()));
                        assert(out@.last()@ == rowv);
                        crate::table::lemma_rows_view_push(out_snap, out@.last());
                        assert(this_out =~= seq![rowv]);
                    }
                }
            } else {
                while i2 < ms.len()
                    invariant
                        0 <= i2 <= ms@.len(),
                        msv == rows_view(ms@),
                        msv.len() > 0,
                        kv == rows_view(keys@),
                        pv == rows_view(prows@),
                        keys@.len() == prows@.len(),
                        0 <= (j as int) < prows@.len(),
                        pv[j as int] == prows@[j as int]@,
                        rows_view(out@) == out_round_pre + msv.take(i2 as int).map_values(
                            |b: Seq<Cell>| combine_row(b, pv[j as int], left_is_build),
                        ),
                    decreases ms.len() - i2,
                {
                    let b = copy_cells(&ms[i2]);
                    let row = if left_is_build {
                        concat_cells(&b, &prows[j])
                    } else {
                        concat_cells(&prows[j], &b)
                    };
                    let ghost rowv = row@;
                    let ghost out_snap = out@;
                    out.push(row);
                    proof {
                        assert(out@ == out_snap.push(out@.last()));
                        assert(out@.last()@ == rowv);
                        crate::table::lemma_rows_view_push(out_snap, out@.last());
                        assert(rowv == combine_row(msv[i2 as int], pv[j as int], left_is_build));
                        assert(rows_view(out@) =~= out_round_pre + msv.take(i2 + 1).map_values(
                            |b2: Seq<Cell>| combine_row(b2, pv[j as int], left_is_build),
                        ));
                    }
                    i2 += 1;
                }
                proof {
                    assert(msv.take(msv.len() as int) =~= msv);
                }
            }
        }
        proof {
            if unmatchable {
                assert(tables@ == tables_pre);
                assert forall|q: int, c: int, i: int|
                    #![trigger tables@[q].marks@[c]@[i]]
                    0 <= q < n && 0 <= c < tables0[q].marks@.len() && 0 <= i
                        < tables0[q].marks@[c]@.len() implies tables@[q].marks@[c]@[i] == (
                tables_pre[q].marks@[c]@[i] || (mark_matches && keys_match(
                    chunks_view(tables0[q].keys@)[c][i],
                    kv[j as int],
                    nulls_equal,
                ))) by {
                    let bk = chunks_view(tables0[q].keys@)[c][i];
                    if keys_match(bk, kv[j as int], nulls_equal) {
                        assert(bk == kv[j as int]);
                        assert(key_unmatchable(bk, nulls_equal));
                        assert(false);
                    }
                }
            }
            assert(rows_view(out@) =~= rows_for_order(
                tables0,
                ord.take(t + 1),
                kv,
                pv,
                nulls_equal,
                emit_unmatched,
                left_is_build,
                build_width as nat,
            ));
            assert forall|q: int, c: int, i: int|
                #![trigger tables@[q].marks@[c]@[i]]
                0 <= q < n && 0 <= c < tables0[q].marks@.len() && 0 <= i
                    < tables0[q].marks@[c]@.len() implies tables@[q].marks@[c]@[i] == probed_mark(
                tables0[q].marks@[c]@[i],
                chunks_view(tables0[q].keys@)[c][i],
                ord.take(t + 1),
                kv,
                nulls_equal,
                mark_matches,
            ) by {
                let bk = chunks_view(tables0[q].keys@)[c][i];
                let before = probed_mark(
                    tables0[q].marks@[c]@[i],
                    bk,
                    ord.take(t as int),
                    kv,
                    nulls_equal,
                    mark_matches,
                );
                let after = probed_mark(
                    tables0[q].marks@[c]@[i],
                    bk,
                    ord.take(t + 1),
                    kv,
                    nulls_equal,
                    mark_matches,
                );
                let match_j = keys_match(bk, kv[j as int], nulls_equal);
                let old_mark = tables0[q].marks@[c]@[i];
                if after && !before {
                    assert(mark_matches);
                    let t2 = choose|t2: int|
                        0 <= t2 < ord.take(t + 1).len() && #[trigger] keys_match(
                            bk,
                            kv[ord.take(t + 1)[t2]],
                            nulls_equal,
                        );
                    if t2 < t {
                        assert(ord.take(t as int)[t2] == ord.take(t + 1)[t2]);
                        assert(before);
                        assert(false);
                    } else {
                        assert(ord.take(t + 1)[t2] == j as int);
                        assert(match_j);
                    }
                }
                if before && !old_mark {
                    let t2 = choose|t2: int|
                        0 <= t2 < ord.take(t as int).len() && #[trigger] keys_match(
                            bk,
                            kv[ord.take(t as int)[t2]],
                            nulls_equal,
                        );
                    assert(ord.take(t + 1)[t2] == ord.take(t as int)[t2]);
                    assert(keys_match(bk, kv[ord.take(t + 1)[t2]], nulls_equal));
                    assert(after);
                }
                if old_mark {
                    assert(after);
                }
                if mark_matches && match_j {
                    assert(ord.take(t + 1)[t as int] == j as int);
                    assert(keys_match(bk, kv[ord.take(t + 1)[t as int]], nulls_equal));
                    assert(after);
                }
                assert(after == (before || (mark_matches && match_j)));
                assert(tables_pre[q].marks@[c]@[i] == before);
                assert(tables@[q].marks@[c]@[i] == (tables_pre[q].marks@[c]@[i] || (mark_matches
                    && match_j)));
                assert(tables@[q].marks@[c]@[i] == after);
            }
        }
        t += 1;
    }
    proof {
        assert(ord.take(order@.len() as int) =~= ord);
    }
    out
}

/// Every match of one chunk is one of the chunk's payload rows.
pub proof fn lemma_matches_in_chunk_widths(
    kc: Seq<Seq<Cell>>,
    rc: Seq<Seq<Cell>>,
    k: Seq<Cell>,
    nulls_equal: bool,
    w: nat,
)
    requires
        rc.len() == kc.len(),
        forall|i: int| 0 <= i < rc.len() ==> (#[trigger] rc[i]).len() == w,
    ensures
        forall|t: int|
            0 <= t < crate::table::matches_in_chunk(kc, rc, k, nulls_equal).len() ==> (
            #[trigger] crate::table::matches_in_chunk(kc, rc, k, nulls_equal)[t]).len() == w,
    decreases kc.len(),
{
    if kc.len() > 0 {
        lemma_matches_in_chunk_widths(kc.drop_last(), rc.drop_last(), k, nulls_equal, w);
        let whole = crate::table::matches_in_chunk(kc, rc, k, nulls_equal);
        let prefix = crate::table::matches_in_chunk(
            kc.drop_last(),
            rc.drop_last(),
            k,
            nulls_equal,
        );
        assert forall|t: int| 0 <= t < whole.len() implies (#[trigger] whole[t]).len() == w by {
            if t < prefix.len() {
                assert(whole[t] == prefix[t]);
            } else {
                assert(whole[t] == rc.last());
            }
        }
    }
}

/// Every match of a table is one of its payload rows.
pub proof fn lemma_matches_in_table_widths(
    kcs: Seq<Seq<Seq<Cell>>>,
    rcs: Seq<Seq<Seq<Cell>>>,
    k: Seq<Cell>,
    nulls_equal: bool,
    w: nat,
)
    requires
        rcs.len() == kcs.len(),
        forall|c: int| 0 <= c < rcs.len() ==> (#[trigger] rcs[c]).len() == kcs[c].len(),
        forall|c: int, i: int|
            0 <= c < rcs.len() && 0 <= i < rcs[c].len() ==> (#[trigger] rcs[c][i]).len() == w,
    ensures
        forall|t: int|
            0 <= t < matches_in_table(kcs, rcs, k, nulls_equal).len() ==> (
            #[trigger] matches_in_table(kcs, rcs, k, nulls_equal)[t]).len() == w,
    decreases kcs.len(),
{
    if kcs.len() > 0 {
        lemma_matches_in_table_widths(kcs.drop_last(), rcs.drop_last(), k, nulls_equal, w);
        lemma_matches_in_chunk_widths(kcs.last(), rcs.last(), k, nulls_equal, w);
        let whole = matches_in_table(kcs, rcs, k, nulls_equal);
        let prefix = matches_in_table(kcs.drop_last(), rcs.drop_last(), k, nulls_equal);
        let last = crate::table::matches_in_chunk(kcs.last(), rcs.last(), k, nulls_equal);
        assert forall|t: int| 0 <= t < whole.len() implies (#[trigger] whole[t]).len() == w by {
            if t < prefix.len() {
                assert(whole[t] == prefix[t]);
            } else {
                assert(whole[t] == last[t - prefix.len()]);
            }
        }
    }
}

/// Every joined output row has the build width plus the probe width.
pub proof fn lemma_rows_for_order_widths(
    tables: Seq<ProbeTable>,
    order: Seq<int>,
    keys: Seq<Seq<Cell>>,
    prows: Seq<Seq<Cell>>,
    nulls_equal: bool,
    emit_unmatched: bool,
    left_is_build: bool,
    build_width: nat,
    probe_width: nat,
)
    requires
        tables.len() > 0,
        forall|q: int| 0 <= q < tables.len() ==> (#[trigger] tables[q]).wf(),
        forall|q: int|
            0 <= q < tables.len() ==> (#[trigger] tables[q]).names@.len() == build_width,
        keys.len() == prows.len(),
        forall|t: int| 0 <= t < order.len() ==> 0 <= #[trigger] order[t] < keys.len(),
        forall|i: int| 0 <= i < prows.len() ==> (#[trigger] prows[i]).len() == probe_width,
    ensures
        forall|t: int|
            0 <= t < rows_for_order(
                tables,
                order,
                keys,
                prows,
                nulls_equal,
                emit_unmatched,
                left_is_build,
                build_width,
            ).len() ==> (#[trigger] rows_for_order(
                tables,
                order,
                keys,
                prows,
                nulls_equal,
                emit_unmatched,
                left_is_build,
                build_width,
            )[t]).len() == build_width + probe_width,
    decreases order.len(),
{
    if order.len() > 0 {
        lemma_rows_for_order_widths(
            tables,
            order.drop_last(),
            keys,
            prows,
            nulls_equal,
            emit_unmatched,
            left_is_build,
            build_width,
            probe_width,
        );
        let j = order.last();
        let k = keys[j];
        let prow = prows[j];
        let p = partition_of(k, tables.len() as int);
        assert(0 <= p < tables.len()) by {
            crate::keys::lemma_key_hash_bounds(k);
            vstd::arithmetic::div_mod::lemma_mod_bound(
                crate::keys::spec_key_hash(k),
                tables.len() as int,
            );
        }
        lemma_matches_in_table_widths(
            chunks_view(tables[p].keys@),
            chunks_view(tables[p].rows@),
            k,
            nulls_equal,
            build_width,
        );
        let this = probe_row_out(
            tables,
            k,
            prow,
            nulls_equal,
            emit_unmatched,
            left_is_build,
            build_width,
        );
        assert forall|t: int| 0 <= t < this.len() implies (#[trigger] this[t]).len() == build_width
            + probe_width by {
            if !key_unmatchable(k, nulls_equal) && row_matches(tables, k, nulls_equal).len() > 0 {
                let ms = row_matches(tables, k, nulls_equal);
                assert(this[t] == combine_row(ms[t], prow, left_is_build));
            } else {
                assert(this[t] == combine_row(null_row(build_width), prow, left_is_build));
            }
        }
        let whole = rows_for_order(
            tables,
            order,
            keys,
            prows,
            nulls_equal,
            emit_unmatched,
            left_is_build,
            build_width,
        );
        let prefix = rows_for_order(
            tables,
            order.drop_last(),
            keys,
            prows,
            nulls_equal,
            emit_unmatched,
            left_is_build,
            build_width,
        );
        assert forall|t: int| 0 <= t < whole.len() implies (#[trigger] whole[t]).len()
            == build_width + probe_width by {
            if t < prefix.len() {
                assert(whole[t] == prefix[t]);
            } else {
                assert(whole[t] == this[t - prefix.len()]);
            }
        }
    }
}

} // verus!
