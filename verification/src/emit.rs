//! Emission of unmatched build rows after probing.
//!
//! Walks the partitions in order; every build row whose mark is still clear
//! is stacked with a null probe-side row and the rows are sliced into
//! morsels of bounded size, tagged with fresh consecutive sequence numbers
//! strictly after every probe output.

use vstd::prelude::*;

use crate::frame::null_row;
use crate::frame::rows_view;
use crate::frame::Cell;
use crate::frame::concat_cells;
use crate::morsel::Morsel;
use crate::names::copy_names;
use crate::names::names_view;
use crate::probe::combine_row;
use crate::table::unmatched_in_table;
use crate::table::bools_view;
use crate::table::chunks_view;
use crate::table::ProbeTable;

verus! {

/// Rounded-up quotient.
pub open spec fn spec_div_ceil(a: int, b: int) -> int {
    a / b + (if a % b != 0 {
        1int
    } else {
        0int
    })
}

/// Bounds of the rounded-up quotient.
pub proof fn lemma_div_ceil_bounds(a: int, b: int)
    requires
        a >= 0,
        b >= 1,
    ensures
        a == 0 ==> spec_div_ceil(a, b) == 0,
        a >= 1 ==> 1 <= spec_div_ceil(a, b) <= a,
{
    vstd::arithmetic::div_mod::lemma_fundamental_div_mod(a, b);
    vstd::arithmetic::div_mod::lemma_div_nonincreasing(a, b);
    vstd::arithmetic::div_mod::lemma_div_pos_is_pos(a, b);
    vstd::arithmetic::div_mod::lemma_mod_bound(a, b);
    let q = a / b;
    let r = a % b;
    if r != 0 {
        assert(q < a) by (nonlinear_arith)
            requires
                a == b * q + r,
                1 <= r,
                r < b,
                b >= 1,
                q >= 0,
        ;
    }
    if a >= 1 && q == 0 {
        assert(b * q == 0) by (nonlinear_arith)
            requires
                q == 0,
        ;
        assert(r == a);
    }
}

/// Rounded-up quotient.
pub fn div_ceil_pos(a: usize, b: usize) -> (r: usize)
    requires
        b > 0,
    ensures
        r as int == spec_div_ceil(a as int, b as int),
        a == 0 ==> r == 0,
        a >= 1 ==> 1 <= r <= a,
{
    proof {
        lemma_div_ceil_bounds(a as int, b as int);
    }
    a / b + (if a % b != 0 {
        1
    } else {
        0
    })
}

/// The size of each unmatched-row morsel: the total divided over the
/// smallest multiple of the pipeline count that covers the ideal morsel
/// count, at least one row.
pub open spec fn spec_morsel_size(total: int, ideal: int, num_pipelines: int) -> int {
    let ideal_count = if total / ideal > 1 {
        total / ideal
    } else {
        1
    };
    let count = spec_div_ceil(ideal_count, num_pipelines) * num_pipelines;
    if spec_div_ceil(total, count) > 1 {
        spec_div_ceil(total, count)
    } else {
        1
    }
}

/// The size of each unmatched-row morsel.
pub fn morsel_size_for(total: usize, ideal: usize, num_pipelines: usize) -> (r: usize)
    requires
        ideal > 0,
        num_pipelines > 0,
        num_pipelines <= 0x7FFF,
        ideal <= 0xFFFF_FFFF,
        total <= 0xFFFF_FFFF_FFFF,
    ensures
        r as int == spec_morsel_size(total as int, ideal as int, num_pipelines as int),
        r >= 1,
{
    let t64 = total as u64;
    let id64 = ideal as u64;
    let np64 = num_pipelines as u64;
    let q64 = t64 / id64;
    proof {
        vstd::arithmetic::div_mod::lemma_div_nonincreasing(t64 as int, id64 as int);
        vstd::arithmetic::div_mod::lemma_div_pos_is_pos(t64 as int, id64 as int);
    }
    let ic = if q64 > 1 {
        q64
    } else {
        1
    };
    assert(1 <= ic <= 0xFFFF_FFFF_FFFF);
    proof {
        lemma_div_ceil_bounds(ic as int, np64 as int);
        vstd::arithmetic::div_mod::lemma_div_nonincreasing(ic as int, np64 as int);
    }
    let per = ic / np64 + (if ic % np64 != 0 {
        1
    } else {
        0
    });
    assert(per as int == spec_div_ceil(ic as int, np64 as int));
    assert(1 <= per <= 0xFFFF_FFFF_FFFF);
    proof {
        assert((per as int) * (np64 as int) <= 0xFFFF_FFFF_FFFF * 0x7FFF) by (nonlinear_arith)
            requires
                0 <= per as int <= 0xFFFF_FFFF_FFFF,
                0 <= np64 as int <= 0x7FFF,
        ;
        assert((per as int) * (np64 as int) >= 1) by (nonlinear_arith)
            requires
                per as int >= 1,
                np64 as int >= 1,
        ;
    }
    let count = per * np64;
    proof {
        lemma_div_ceil_bounds(t64 as int, count as int);
        vstd::arithmetic::div_mod::lemma_div_nonincreasing(t64 as int, count as int);
    }
    let size = t64 / count + (if t64 % count != 0 {
        1
    } else {
        0
    });
    assert(size as int == spec_div_ceil(t64 as int, count as int));
    assert(size <= t64);
    let r0 = if size > 1 {
        size
    } else {
        1
    };
    assert(r0 as int <= total as int || r0 == 1);
    r0 as usize
}

/// The unmatched rows of every partition, in partition order.
pub open spec fn all_unmatched(tables: Seq<ProbeTable>) -> Seq<(u64, int, Seq<Cell>)>
    decreases tables.len(),
{
    if tables.len() == 0 {
        Seq::empty()
    } else {
        all_unmatched(tables.drop_last()) + unmatched_in_table(
            chunks_view(tables.last().rows@),
            bools_view(tables.last().marks@),
            tables.last().chunk_seqs@,
        )
    }
}

/// Unmatched build rows padded with a null probe-side row.
pub open spec fn padded_unmatched(
    um: Seq<(u64, int, Seq<Cell>)>,
    probe_width: nat,
    left_is_build: bool,
) -> Seq<Seq<Cell>> {
    um.map_values(
        |u: (u64, int, Seq<Cell>)| combine_row(u.2, null_row(probe_width), left_is_build),
    )
}

/// The rows of a morsel list, concatenated in order.
pub open spec fn morsels_rows(ms: Seq<Morsel>) -> Seq<Seq<Cell>>
    decreases ms.len(),
{
    if ms.len() == 0 {
        Seq::empty()
    } else {
        morsels_rows(ms.drop_last()) + rows_view(ms.last().df.rows@)
    }
}

/// Streams the unmatched build rows of every partition: each is padded with
/// nulls on the probe side, and the rows are sliced into morsels of at most
/// `morsel_size` rows, tagged with consecutive sequence numbers starting at
/// `start_seq`.
pub fn collect_unmatched(
    tables: &Vec<ProbeTable>,
    out_width: usize,
    probe_width: usize,
    left_is_build: bool,
) -> (r: Vec<Vec<Cell>>)
    requires
        forall|q: int| 0 <= q < tables@.len() ==> (#[trigger] tables@[q]).wf(),
        forall|q: int|
            0 <= q < tables@.len() ==> (#[trigger] tables@[q]).names@.len() + probe_width
                == out_width,
    ensures
        rows_view(r@) == padded_unmatched(all_unmatched(tables@), probe_width as nat, left_is_build),
        forall|t: int| 0 <= t < r@.len() ==> (#[trigger] r@[t])@.len() == out_width,
{
    let ghost target = padded_unmatched(all_unmatched(tables@), probe_width as nat, left_is_build);
    let mut rows: Vec<Vec<Cell>> = Vec::new();
    let mut p: usize = 0;
    proof {
        assert(tables@.take(0) =~= Seq::<ProbeTable>::empty());
        assert(rows_view(rows@) =~= padded_unmatched(
            all_unmatched(tables@.take(0)),
            probe_width as nat,
            left_is_build,
        ));
    }
    while p < tables.len()
        invariant
            0 <= p <= tables@.len(),
            forall|q: int| 0 <= q < tables@.len() ==> (#[trigger] tables@[q]).wf(),
            forall|q: int|
                0 <= q < tables@.len() ==> (#[trigger] tables@[q]).names@.len() + probe_width
                    == out_width,
            rows_view(rows@) == padded_unmatched(
                all_unmatched(tables@.take(p as int)),
                probe_width as nat,
                left_is_build,
            ),
            forall|t: int| 0 <= t < rows@.len() ==> (#[trigger] rows@[t])@.len() == out_width,
        decreases tables.len() - p,
    {
        let um = tables[p].unmatched_rows();
        let ghost umv = crate::table::unmatched_view(um@);
        let ghost rows_pre = rows_view(rows@);
        let mut nulls: Vec<Cell> = Vec::new();
        let mut w: usize = 0;
        while w < probe_width
            invariant
                0 <= w <= probe_width,
                nulls@.len() == w,
                forall|x: int| 0 <= x < w ==> nulls@[x] is None,
            decreases probe_width - w,
        {
            nulls.push(None);
            w += 1;
        }
        assert(nulls@ =~= null_row(probe_width as nat));
        let mut t: usize = 0;
        while t < um.len()
            invariant
                0 <= t <= um@.len(),
                umv == crate::table::unmatched_view(um@),
                nulls@ == null_row(probe_width as nat),
                0 <= (p as int) < tables@.len(),
                forall|x: int|
                    0 <= x < um@.len() ==> (#[trigger] um@[x]).row@.len()
                        == tables@[p as int].names@.len(),
                tables@[p as int].names@.len() + probe_width == out_width,
                rows_view(rows@) == rows_pre + umv.take(t as int).map_values(
                    |u: (u64, int, Seq<Cell>)| combine_row(
                        u.2,
                        null_row(probe_width as nat),
                        left_is_build,
                    ),
                ),
                forall|x: int|
                    0 <= x < rows@.len() ==> (#[trigger] rows@[x])@.len() == out_width,
            decreases um.len() - t,
        {
            let row = if left_is_build {
                concat_cells(&um[t].row, &nulls)
            } else {
                concat_cells(&nulls, &um[t].row)
            };
            let ghost rowv = row@;
            let ghost rows_snap = rows@;
            rows.push(row);
            proof {
                assert(rows@ == rows_snap.push(rows@.last()));
                assert(rows@.last()@ == rowv);
                crate::table::lemma_rows_view_push(rows_snap, rows@.last());
                assert(umv[t as int] == (um@[t as int].seq, um@[t as int].idx as int, um@[
                t as int].row@));
                assert(rowv == combine_row(
                    umv[t as int].2,
                    null_row(probe_width as nat),
                    left_is_build,
                ));
                assert(umv.take(t + 1).drop_last() =~= umv.take(t as int));
                assert(rows_view(rows@) =~= rows_pre + umv.take(t + 1).map_values(
                    |u: (u64, int, Seq<Cell>)| combine_row(
                        u.2,
                        null_row(probe_width as nat),
                        left_is_build,
                    ),
                ));
            }
            t += 1;
        }
        proof {
            assert(umv.take(umv.len() as int) =~= umv);
            assert(tables@.take(p + 1).drop_last() =~= tables@.take(p as int));
            assert(tables@.take(p + 1).last() == tables@[p as int]);
            assert(umv == unmatched_in_table(
                chunks_view(tables@[p as int].rows@),
                bools_view(tables@[p as int].marks@),
                tables@[p as int].chunk_seqs@,
            ));
            assert(rows_view(rows@) =~= padded_unmatched(
                all_unmatched(tables@.take(p + 1)),
                probe_width as nat,
                left_is_build,
            ));
        }
        p += 1;
    }
    proof {
        assert(tables@.take(tables@.len() as int) =~= tables@);
    }
    rows
}

/// Streams the unmatched build rows of every partition, padded with nulls
/// on the probe side and sliced into morsels with consecutive sequence
/// numbers; refuses only when the sequence numbers would run out.
pub fn emit_unmatched_guarded(
    tables: &Vec<ProbeTable>,
    out_names: &Vec<Vec<u8>>,
    probe_width: usize,
    left_is_build: bool,
    morsel_size: usize,
    start_seq: u64,
) -> (r: Option<Vec<Morsel>>)
    requires
        morsel_size >= 1,
        forall|q: int| 0 <= q < tables@.len() ==> (#[trigger] tables@[q]).wf(),
        forall|q: int|
            0 <= q < tables@.len() ==> (#[trigger] tables@[q]).names@.len() + probe_width
                == out_names@.len(),
    ensures
        (r is Some) == (start_seq as int + all_unmatched(tables@).len() <= u64::MAX as int),
        r is Some ==> {
            let ms = r.unwrap()@;
            &&& morsels_rows(ms) == padded_unmatched(
                all_unmatched(tables@),
                probe_width as nat,
                left_is_build,
            )
            &&& forall|t: int|
                0 <= t < ms.len() ==> (#[trigger] ms[t]).seq as int == start_seq as int + t
            &&& forall|t: int| 0 <= t < ms.len() ==> (#[trigger] ms[t]).df.wf()
            &&& forall|t: int|
                0 <= t < ms.len() ==> names_view((#[trigger] ms[t]).df.names@) == names_view(
                    out_names@,
                )
            &&& forall|t: int|
                0 <= t < ms.len() ==> 1 <= (#[trigger] ms[t]).df.spec_height() <= morsel_size
        },
{
    let rows = collect_unmatched(tables, out_names.len(), probe_width, left_is_build);
    proof {
        assert(rows_view(rows@).len() == rows@.len());
        assert(padded_unmatched(all_unmatched(tables@), probe_width as nat, left_is_build).len()
            == all_unmatched(tables@).len());
    }
    if (start_seq as u128) + (rows.len() as u128) > (u64::MAX as u128) {
        return None;
    }
    Some(slice_into_morsels(rows, out_names, morsel_size, start_seq))
}

/// Slices a row list into morsels of at most `morsel_size` rows each, over
/// the given schema, tagged with consecutive sequence numbers.
pub fn slice_into_morsels(
    rows: Vec<Vec<Cell>>,
    out_names: &Vec<Vec<u8>>,
    morsel_size: usize,
    start_seq: u64,
) -> (r: Vec<Morsel>)
    requires
        morsel_size >= 1,
        forall|t: int| 0 <= t < rows@.len() ==> (#[trigger] rows@[t])@.len() == out_names@.len(),
        start_seq as int + rows@.len() <= u64::MAX as int,
    ensures
        morsels_rows(r@) == rows_view(rows@),
        forall|t: int|
            0 <= t < r@.len() ==> (#[trigger] r@[t]).seq as int == start_seq as int + t,
        forall|t: int| 0 <= t < r@.len() ==> (#[trigger] r@[t]).df.wf(),
        forall|t: int|
            0 <= t < r@.len() ==> names_view((#[trigger] r@[t]).df.names@) == names_view(
                out_names@,
            ),
        forall|t: int|
            0 <= t < r@.len() ==> 1 <= (#[trigger] r@[t]).df.spec_height() <= morsel_size,
{
    let ghost all = rows_view(rows@);
    let mut rows = rows;
    let mut r: Vec<Morsel> = Vec::new();
    let mut seq: u64 = start_seq;
    let ghost mut done: int = 0;
    proof {
        assert(all.take(0) =~= Seq::<Seq<Cell>>::empty());
        assert(morsels_rows(r@) =~= all.take(0));
    }
    while rows.len() > 0
        invariant
            0 <= done <= all.len(),
            rows_view(rows@) == all.skip(done),
            rows@.len() == all.len() - done,
            morsel_size >= 1,
            seq as int == start_seq as int + r@.len(),
            start_seq as int + all.len() <= u64::MAX as int,
            r@.len() <= done,
            morsels_rows(r@) == all.take(done),
            forall|t: int| 0 <= t < all.len() ==> (#[trigger] all[t]).len() == out_names@.len(),
            forall|t: int|
                0 <= t < rows@.len() ==> (#[trigger] rows@[t])@.len() == out_names@.len(),
            forall|t: int|
                0 <= t < r@.len() ==> (#[trigger] r@[t]).seq as int == start_seq as int + t,
            forall|t: int| 0 <= t < r@.len() ==> (#[trigger] r@[t]).df.wf(),
            forall|t: int|
                0 <= t < r@.len() ==> names_view((#[trigger] r@[t]).df.names@) == names_view(
                    out_names@,
                ),
            forall|t: int|
                0 <= t < r@.len() ==> 1 <= (#[trigger] r@[t]).df.spec_height() <= morsel_size,
        decreases rows.len(),
    {
        let take_n = if rows.len() < morsel_size {
            rows.len()
        } else {
            morsel_size
        };
        let mut chunk: Vec<Vec<Cell>> = Vec::new();
        let mut k: usize = 0;
        let ghost rows_at = rows_view(rows@);
        while k < take_n
            invariant
                0 <= k <= take_n,
                take_n >= 1,
                take_n <= rows_at.len(),
                rows_view(rows@) == rows_at.skip(k as int),
                rows@.len() == rows_at.len() - k,
                chunk@.len() == k,
                rows_view(chunk@) == rows_at.take(k as int),
                forall|t: int|
                    0 <= t < rows@.len() ==> (#[trigger] rows@[t])@.len() == out_names@.len(),
                forall|t: int| 0 <= t < rows_at.len() ==> (#[trigger] rows_at[t]).len() == out_names@.len(),
                forall|t: int|
                    0 <= t < chunk@.len() ==> (#[trigger] chunk@[t])@.len() == out_names@.len(),
            decreases take_n - k,
        {
            let ghost rows_vec_pre = rows@;
            let row = rows.remove(0);
            proof {
                assert(row == rows_vec_pre[0]);
                assert(rows_view(rows_vec_pre)[0] == rows_vec_pre[0]@);
                assert(rows_view(rows_vec_pre) == rows_at.skip(k as int));
                assert(rows_at.skip(k as int)[0] == rows_at[k as int]);
                assert(row@ == rows_at[k as int]);
            }
            let ghost chunk_snap = chunk@;
            chunk.push(row);
            proof {
                assert(chunk@ == chunk_snap.push(chunk@.last()));
                crate::table::lemma_rows_view_push(chunk_snap, chunk@.last());
                assert(rows_view(chunk@) =~= rows_at.take(k + 1));
                assert forall|x: int| 0 <= x < rows@.len() implies rows_view(rows@)[x]
                    == rows_at.skip(k + 1)[x] by {
                    assert(rows@[x] == rows_vec_pre[x + 1]);
                    assert(rows_view(rows@)[x] == rows@[x]@);
                    assert(rows_view(rows_vec_pre)[x + 1] == rows_vec_pre[x + 1]@);
                }
                assert(rows_view(rows@) =~= rows_at.skip(k + 1));
            }
            k += 1;
        }
        let df = crate::frame::Frame { names: copy_names(out_names), rows: chunk };
        let ghost r_snap = r@;
        r.push(Morsel { df, seq });
        seq += 1;
        proof {
            assert(r@ == r_snap.push(r@.last()));
            assert(r@.drop_last() =~= r_snap);
            assert(morsels_rows(r@) == morsels_rows(r_snap) + rows_view(r@.last().df.rows@));
            assert(rows_view(r@.last().df.rows@) =~= rows_at.take(take_n as int));
            assert(all.skip(done).take(take_n as int) =~= all.subrange(done, done + take_n));
            assert(all.take(done + take_n) =~= all.take(done) + all.subrange(
                done,
                done + take_n,
            ));
            assert(morsels_rows(r@) =~= all.take(done + take_n));
            done = done + take_n;
            assert(rows_view(rows@) =~= all.skip(done));
        }
    }
    proof {
        assert(all.skip(done).len() == 0);
        assert(all.take(done) =~= all);
    }
    r
}

} // verus!
