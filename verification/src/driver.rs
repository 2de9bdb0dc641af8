//! The data path of the join, phase by phase.
//!
//! `prepare` chooses the build side, partitions the build morsels and
//! materializes the per-partition tables; `probe_and_emit` runs every probe
//! morsel against the tables, applies key coalescing, and finally streams
//! the unmatched build rows; `run_join` is the whole pipeline.

use vstd::prelude::*;

use crate::args::JoinArgs;
use crate::args::JoinType;
use crate::building::chunk_keys_spec;
use crate::building::chunk_rows_spec;
use crate::building::finalize;
use crate::building::kept_idxs;
use crate::building::lemma_built_tables_partitioned;
use crate::building::partition_and_sink;
use crate::coalesce::coalesce_cols;
use crate::coalesce::coalesce_ok;
use crate::coalesce::plan_cell;
use crate::coalesce::postprocess_join;
use crate::emit::all_unmatched;
use crate::emit::emit_unmatched_guarded;
use crate::emit::morsel_size_for;
use crate::emit::padded_unmatched;
use crate::frame::null_row;
use crate::frame::rows_view;
use crate::frame::Cell;
use crate::frame::Frame;
use crate::keys::keys_of_frame;
use crate::keys::select_keys;
use crate::morsel::morsel_rows;
use crate::morsel::Morsel;
use crate::names::copy_names;
use crate::names::names_view;
use crate::probe::identity_ord;
use crate::probe::identity_order;
use crate::probe::partition_major_order;
use crate::probe::partition_major_upto;
use crate::probe::probe_rows;
use crate::probe::probed_mark;
use crate::probe::rows_for_order;
use crate::probe::tables_partitioned;
use crate::sample::choose_build_side;
use crate::sample::estimate_cardinality;
use crate::sample::needs_estimate;
use crate::selector::select_payload;
use crate::selector::select_row;
use crate::selector::selected_names;
use crate::selector::sel_view;
use crate::table::bools_view;
use crate::table::chunks_view;
use crate::table::ProbeTable;

verus! {

/// The construction-time parameters of the join node.
pub struct EquiJoinParams {
    pub left_is_build: Option<bool>,
    pub preserve_order_build: bool,
    pub preserve_order_probe: bool,
    pub left_input_schema: Vec<Vec<u8>>,
    pub right_input_schema: Vec<Vec<u8>>,
    pub left_key_schema: Vec<Vec<u8>>,
    pub right_key_schema: Vec<Vec<u8>>,
    pub left_key_idxs: Vec<usize>,
    pub right_key_idxs: Vec<usize>,
    pub left_payload_select: Vec<Option<Vec<u8>>>,
    pub right_payload_select: Vec<Option<Vec<u8>>>,
    pub left_payload_schema: Vec<Vec<u8>>,
    pub right_payload_schema: Vec<Vec<u8>>,
    pub args: JoinArgs,
}

impl EquiJoinParams {
    /// Whether unmatched build rows are emitted after probing.
    pub open spec fn spec_emit_unmatched_build(&self) -> bool
        recommends
            self.left_is_build is Some,
    {
        if self.left_is_build.unwrap() {
            self.args.how == JoinType::Left || self.args.how == JoinType::Full
        } else {
            self.args.how == JoinType::Right || self.args.how == JoinType::Full
        }
    }

    /// Whether unmatched probe rows are emitted while probing.
    pub open spec fn spec_emit_unmatched_probe(&self) -> bool
        recommends
            self.left_is_build is Some,
    {
        if self.left_is_build.unwrap() {
            self.args.how == JoinType::Right || self.args.how == JoinType::Full
        } else {
            self.args.how == JoinType::Left || self.args.how == JoinType::Full
        }
    }

    /// Whether unmatched build rows are emitted after probing.
    pub fn emit_unmatched_build(&self) -> (r: bool)
        requires
            self.left_is_build is Some,
        ensures
            r == self.spec_emit_unmatched_build(),
    {
        match self.left_is_build {
            Some(true) => matches!(self.args.how, JoinType::Left | JoinType::Full),
            Some(false) => matches!(self.args.how, JoinType::Right | JoinType::Full),
            None => false,
        }
    }

    /// Whether unmatched probe rows are emitted while probing.
    pub fn emit_unmatched_probe(&self) -> (r: bool)
        requires
            self.left_is_build is Some,
        ensures
            r == self.spec_emit_unmatched_probe(),
    {
        match self.left_is_build {
            Some(true) => matches!(self.args.how, JoinType::Right | JoinType::Full),
            Some(false) => matches!(self.args.how, JoinType::Left | JoinType::Full),
            None => false,
        }
    }

    /// Whether the join is a full join with key coalescing.
    pub open spec fn spec_full_coalesce(&self) -> bool {
        self.args.how == JoinType::Full && self.args.coalesce
    }

    /// The parameters are internally consistent.
    pub open spec fn wf(&self) -> bool {
        &&& forall|k: int|
            0 <= k < self.left_key_idxs@.len() ==> (#[trigger] self.left_key_idxs@[k])
                < self.left_input_schema@.len()
        &&& forall|k: int|
            0 <= k < self.right_key_idxs@.len() ==> (#[trigger] self.right_key_idxs@[k])
                < self.right_input_schema@.len()
        &&& self.left_payload_select@.len() == self.left_input_schema@.len()
        &&& self.right_payload_select@.len() == self.right_input_schema@.len()
        &&& names_view(self.left_payload_schema@) == selected_names(
            sel_view(self.left_payload_select@),
        )
        &&& names_view(self.right_payload_schema@) == selected_names(
            sel_view(self.right_payload_select@),
        )
    }
}

/// Whether unmatched build rows are emitted, given the chosen build side.
pub open spec fn spec_emit_build(left_is_build: bool, how: JoinType) -> bool {
    if left_is_build {
        how == JoinType::Left || how == JoinType::Full
    } else {
        how == JoinType::Right || how == JoinType::Full
    }
}

/// Whether unmatched probe rows are emitted, given the chosen build side.
pub open spec fn spec_emit_probe(left_is_build: bool, how: JoinType) -> bool {
    if left_is_build {
        how == JoinType::Right || how == JoinType::Full
    } else {
        how == JoinType::Left || how == JoinType::Full
    }
}

/// Every morsel of one side is well-formed over that side's schema width.
pub open spec fn side_morsels_wf(ms: Seq<Morsel>, width: nat) -> bool {
    forall|m: int|
        0 <= m < ms.len() ==> (#[trigger] ms[m]).wf() && ms[m].df.names@.len() == width
}

/// The payload rows of a morsel under a selector.
pub open spec fn payload_rows(m: Morsel, sel: Seq<Option<Seq<u8>>>) -> Seq<Seq<Cell>> {
    morsel_rows(m).map_values(|row: Seq<Cell>| select_row(row, sel))
}

/// The order the rows of one probe morsel are processed in: row order when
/// the probe side's order is preserved, partition-major order otherwise.
pub open spec fn spec_probe_order(
    m: Morsel,
    key_idxs: Seq<usize>,
    n: int,
    emit_unmatched: bool,
    nulls_equal: bool,
    ordered: bool,
) -> Seq<int> {
    let keys = keys_of_frame(morsel_rows(m), key_idxs);
    if ordered {
        identity_ord(keys.len())
    } else {
        partition_major_upto(keys, n, n, emit_unmatched, nulls_equal)
    }
}

/// The joined rows of a whole probe phase, morsel by morsel.
pub open spec fn probe_phase_rows(
    tables: Seq<ProbeTable>,
    ms: Seq<Morsel>,
    key_idxs: Seq<usize>,
    sel: Seq<Option<Seq<u8>>>,
    n: int,
    nulls_equal: bool,
    emit_unmatched: bool,
    left_is_build: bool,
    build_width: nat,
    ordered: bool,
) -> Seq<Seq<Cell>>
    decreases ms.len(),
{
    if ms.len() == 0 {
        Seq::empty()
    } else {
        probe_phase_rows(
            tables,
            ms.drop_last(),
            key_idxs,
            sel,
            n,
            nulls_equal,
            emit_unmatched,
            left_is_build,
            build_width,
            ordered,
        ) + rows_for_order(
            tables,
            spec_probe_order(ms.last(), key_idxs, n, emit_unmatched, nulls_equal, ordered),
            keys_of_frame(morsel_rows(ms.last()), key_idxs),
            payload_rows(ms.last(), sel),
            nulls_equal,
            emit_unmatched,
            left_is_build,
            build_width,
        )
    }
}

/// The mark a build key carries after a whole probe phase.
pub open spec fn mark_after_phase(
    old_mark: bool,
    bk: Seq<Cell>,
    ms: Seq<Morsel>,
    key_idxs: Seq<usize>,
    n: int,
    nulls_equal: bool,
    emit_unmatched: bool,
    ordered: bool,
    mark_matches: bool,
) -> bool
    decreases ms.len(),
{
    if ms.len() == 0 {
        old_mark
    } else {
        probed_mark(
            mark_after_phase(
                old_mark,
                bk,
                ms.drop_last(),
                key_idxs,
                n,
                nulls_equal,
                emit_unmatched,
                ordered,
                mark_matches,
            ),
            bk,
            spec_probe_order(ms.last(), key_idxs, n, emit_unmatched, nulls_equal, ordered),
            keys_of_frame(morsel_rows(ms.last()), key_idxs),
            nulls_equal,
            mark_matches,
        )
    }
}

/// The rows of a frame list, concatenated in order.
pub open spec fn frames_rows(fs: Seq<Frame>) -> Seq<Seq<Cell>>
    decreases fs.len(),
{
    if fs.len() == 0 {
        Seq::empty()
    } else {
        frames_rows(fs.drop_last()) + rows_view(fs.last().rows@)
    }
}

/// Rows after post-join coalescing.
pub open spec fn postprocessed(
    rows: Seq<Seq<Cell>>,
    full_coalesce: bool,
    out_names: Seq<Seq<u8>>,
    lk: Seq<Seq<u8>>,
) -> Seq<Seq<Cell>> {
    if !full_coalesce {
        rows
    } else {
        rows.map_values(
            |row: Seq<Cell>|
                coalesce_cols(out_names, lk, 0, 0).map_values(|pl: (int, Option<int>)| plan_cell(row, pl)),
        )
    }
}

/// The marks of one table after a whole probe phase.
pub open spec fn final_marks(
    t: ProbeTable,
    ms: Seq<Morsel>,
    key_idxs: Seq<usize>,
    n: int,
    nulls_equal: bool,
    emit_unmatched: bool,
    ordered: bool,
    mark_matches: bool,
) -> Seq<Seq<bool>> {
    Seq::new(
        t.marks@.len(),
        |c: int|
            Seq::new(
                t.marks@[c]@.len(),
                |i: int|
                    mark_after_phase(
                        bools_view(t.marks@)[c][i],
                        chunks_view(t.keys@)[c][i],
                        ms,
                        key_idxs,
                        n,
                        nulls_equal,
                        emit_unmatched,
                        ordered,
                        mark_matches,
                    ),
            ),
    )
}

/// The unmatched rows of every partition after a whole probe phase, in
/// partition order.
pub open spec fn all_unmatched_final(
    tables: Seq<ProbeTable>,
    ms: Seq<Morsel>,
    key_idxs: Seq<usize>,
    n: int,
    nulls_equal: bool,
    emit_unmatched: bool,
    ordered: bool,
    mark_matches: bool,
) -> Seq<(u64, int, Seq<Cell>)>
    decreases tables.len(),
{
    if tables.len() == 0 {
        Seq::empty()
    } else {
        all_unmatched_final(
            tables.drop_last(),
            ms,
            key_idxs,
            n,
            nulls_equal,
            emit_unmatched,
            ordered,
            mark_matches,
        ) + crate::table::unmatched_in_table(
            chunks_view(tables.last().rows@),
            final_marks(
                tables.last(),
                ms,
                key_idxs,
                n,
                nulls_equal,
                emit_unmatched,
                ordered,
                mark_matches,
            ),
            tables.last().chunk_seqs@,
        )
    }
}

/// The output schema before coalescing: left payload columns then right
/// payload columns.
pub open spec fn out_schema(params: &EquiJoinParams) -> Seq<Seq<u8>> {
    names_view(params.left_payload_schema@) + names_view(params.right_payload_schema@)
}

/// Splits joined rows into frames of at most `limit` rows over the output
/// schema.
pub fn split_frames(rows: Vec<Vec<Cell>>, out_names: &Vec<Vec<u8>>, limit: usize) -> (r: Vec<
    Frame,
>)
    requires
        limit >= 1,
        forall|t: int| 0 <= t < rows@.len() ==> (#[trigger] rows@[t])@.len() == out_names@.len(),
    ensures
        frames_rows(r@) == rows_view(rows@),
        forall|t: int| 0 <= t < r@.len() ==> (#[trigger] r@[t]).wf(),
        forall|t: int|
            0 <= t < r@.len() ==> names_view((#[trigger] r@[t]).names@) == names_view(out_names@),
        forall|t: int| 0 <= t < r@.len() ==> 1 <= (#[trigger] r@[t]).spec_height() <= limit,
{
    let row_count = rows.len();
    assert(row_count as int + 0 <= u64::MAX as int);
    let ms = crate::emit::slice_into_morsels(rows, out_names, limit, 0);
    let ghost msv = ms@;
    let mut ms = ms;
    let mut r: Vec<Frame> = Vec::new();
    let ghost mut t: int = 0;
    proof {
        assert(msv.take(0) =~= Seq::<Morsel>::empty());
        assert(frames_rows(r@) =~= crate::emit::morsels_rows(msv.take(0)));
    }
    while ms.len() > 0
        invariant
            0 <= t <= msv.len(),
            ms@ == msv.skip(t),
            r@.len() == t,
            frames_rows(r@) == crate::emit::morsels_rows(msv.take(t)),
            forall|x: int| 0 <= x < msv.len() ==> (#[trigger] msv[x]).df.wf(),
            forall|x: int|
                0 <= x < msv.len() ==> names_view((#[trigger] msv[x]).df.names@) == names_view(
                    out_names@,
                ),
            forall|x: int|
                0 <= x < msv.len() ==> 1 <= (#[trigger] msv[x]).df.spec_height() <= limit,
            forall|x: int| 0 <= x < r@.len() ==> (#[trigger] r@[x]).wf(),
            forall|x: int|
                0 <= x < r@.len() ==> names_view((#[trigger] r@[x]).names@) == names_view(
                    out_names@,
                ),
            forall|x: int| 0 <= x < r@.len() ==> 1 <= (#[trigger] r@[x]).spec_height() <= limit,
        decreases ms.len(),
    {
        assert(t < msv.len()) by {
            assert(msv.skip(t).len() > 0);
        }
        let m = ms.remove(0);
        assert(m == msv[t]);
        assert(ms@ =~= msv.skip(t + 1));
        let ghost r_snap = r@;
        r.push(m.df);
        proof {
            assert(r@ == r_snap.push(r@.last()));
            assert(r@.drop_last() =~= r_snap);
            assert(msv.take(t + 1).drop_last() =~= msv.take(t));
            assert(msv.take(t + 1).last() == msv[t]);
            assert(frames_rows(r@) =~= crate::emit::morsels_rows(msv.take(t + 1)));
            t = t + 1;
        }
    }
    proof {
        assert(msv.skip(t).len() == 0);
        assert(msv.take(t) =~= msv);
    }
    r
}

/// The largest sequence number of a morsel list, zero when empty.
pub open spec fn spec_max_seq(ms: Seq<Morsel>) -> int
    decreases ms.len(),
{
    if ms.len() == 0 {
        0
    } else if ms.last().seq as int > spec_max_seq(ms.drop_last()) {
        ms.last().seq as int
    } else {
        spec_max_seq(ms.drop_last())
    }
}

/// The joined rows depend only on the tables' keys and payload, never on
/// their marks.
pub proof fn lemma_rows_for_order_tables(
    t1: Seq<ProbeTable>,
    t2: Seq<ProbeTable>,
    order: Seq<int>,
    keys: Seq<Seq<Cell>>,
    prows: Seq<Seq<Cell>>,
    nulls_equal: bool,
    emit_unmatched: bool,
    left_is_build: bool,
    build_width: nat,
)
    requires
        t1.len() == t2.len(),
        t1.len() > 0,
        forall|q: int|
            0 <= q < t1.len() ==> (#[trigger] t1[q]).keys@ == t2[q].keys@ && t1[q].rows@
                == t2[q].rows@,
        forall|t: int| 0 <= t < order.len() ==> 0 <= #[trigger] order[t] < keys.len(),
    ensures
        rows_for_order(
            t1,
            order,
            keys,
            prows,
            nulls_equal,
            emit_unmatched,
            left_is_build,
            build_width,
        ) == rows_for_order(
            t2,
            order,
            keys,
            prows,
            nulls_equal,
            emit_unmatched,
            left_is_build,
            build_width,
        ),
    decreases order.len(),
{
    if order.len() > 0 {
        lemma_rows_for_order_tables(
            t1,
            t2,
            order.drop_last(),
            keys,
            prows,
            nulls_equal,
            emit_unmatched,
            left_is_build,
            build_width,
        );
        let j = order.last();
        let k = keys[j];
        let p = crate::keys::partition_of(k, t1.len() as int);
        assert(0 <= p < t1.len()) by {
            crate::keys::lemma_key_hash_bounds(k);
            vstd::arithmetic::div_mod::lemma_mod_bound(
                crate::keys::spec_key_hash(k),
                t1.len() as int,
            );
        }
        assert(chunks_view(t1[p].keys@) == chunks_view(t2[p].keys@));
        assert(chunks_view(t1[p].rows@) == chunks_view(t2[p].rows@));
        assert(crate::probe::row_matches(t1, k, nulls_equal) == crate::probe::row_matches(
            t2,
            k,
            nulls_equal,
        ));
        assert(crate::probe::probe_row_out(
            t1,
            k,
            prows[j],
            nulls_equal,
            emit_unmatched,
            left_is_build,
            build_width,
        ) == crate::probe::probe_row_out(
            t2,
            k,
            prows[j],
            nulls_equal,
            emit_unmatched,
            left_is_build,
            build_width,
        ));
    }
}

/// Post-join coalescing distributes over concatenation.
pub proof fn lemma_postprocessed_add(
    a: Seq<Seq<Cell>>,
    b: Seq<Seq<Cell>>,
    full_coalesce: bool,
    out_names: Seq<Seq<u8>>,
    lk: Seq<Seq<u8>>,
)
    ensures
        postprocessed(a + b, full_coalesce, out_names, lk) == postprocessed(
            a,
            full_coalesce,
            out_names,
            lk,
        ) + postprocessed(b, full_coalesce, out_names, lk),
{
    if full_coalesce {
        assert(postprocessed(a + b, full_coalesce, out_names, lk) =~= postprocessed(
            a,
            full_coalesce,
            out_names,
            lk,
        ) + postprocessed(b, full_coalesce, out_names, lk));
    } else {
        assert(a + b == postprocessed(a, full_coalesce, out_names, lk) + postprocessed(
            b,
            full_coalesce,
            out_names,
            lk,
        ));
    }
}

/// Probes every morsel against the tables in order, applies coalescing, and
/// finally streams the unmatched build rows.
///
/// The output is exactly the coalesced probe output of every morsel in
/// order, followed, when unmatched build rows are owed and the sequence
/// numbers suffice, by the coalesced null-padded unmatched rows.
#[verifier::rlimit(100)]
pub fn probe_and_emit(
    tables: Vec<ProbeTable>,
    probe_morsels: &Vec<Morsel>,
    params: &EquiJoinParams,
    left_is_build: bool,
    ideal_morsel_size: usize,
) -> (out: Vec<Frame>)
    requires
        params.wf(),
        1 <= tables@.len() <= 0x7FFF,
        forall|q: int| 0 <= q < tables@.len() ==> (#[trigger] tables@[q]).wf(),
        tables_partitioned(tables@),
        forall|q: int|
            0 <= q < tables@.len() ==> (#[trigger] tables@[q]).names@.len() == (
            if left_is_build {
                params.left_payload_schema@.len()
            } else {
                params.right_payload_schema@.len()
            }),
        side_morsels_wf(
            probe_morsels@,
            (if left_is_build {
                params.right_input_schema@.len()
            } else {
                params.left_input_schema@.len()
            }) as nat,
        ),
        forall|m: int| 0 <= m < probe_morsels@.len() ==> (#[trigger] probe_morsels@[m]).seq < u64::MAX,
        1 <= ideal_morsel_size <= 0xFFFF_FFFF,
        params.spec_full_coalesce() ==> coalesce_ok(
            out_schema(params),
            names_view(params.left_key_schema@),
            0,
            0,
        ),
    ensures
        ({
            let lib = left_is_build;
            let n = tables@.len() as int;
            let pkidx = if lib {
                params.right_key_idxs@
            } else {
                params.left_key_idxs@
            };
            let psel = if lib {
                sel_view(params.right_payload_select@)
            } else {
                sel_view(params.left_payload_select@)
            };
            let bw = (if lib {
                params.left_payload_schema@.len()
            } else {
                params.right_payload_schema@.len()
            }) as nat;
            let ppw = (if lib {
                params.right_payload_schema@.len()
            } else {
                params.left_payload_schema@.len()
            }) as nat;
            let ne = params.args.nulls_equal;
            let eup = spec_emit_probe(lib, params.args.how);
            let fc = params.spec_full_coalesce();
            let osv = out_schema(params);
            let lkv = names_view(params.left_key_schema@);
            let ordered = params.preserve_order_probe;
            let probe_part = postprocessed(
                probe_phase_rows(
                    tables@,
                    probe_morsels@,
                    pkidx,
                    psel,
                    n,
                    ne,
                    eup,
                    lib,
                    bw,
                    ordered,
                ),
                fc,
                osv,
                lkv,
            );
            let um = all_unmatched_final(
                tables@,
                probe_morsels@,
                pkidx,
                n,
                ne,
                eup,
                ordered,
                spec_emit_build(lib, params.args.how),
            );
            let um_part = postprocessed(padded_unmatched(um, ppw, lib), fc, osv, lkv);
            &&& (!spec_emit_build(lib, params.args.how) ==> frames_rows(out@) == probe_part)
            &&& (spec_emit_build(lib, params.args.how) && !params.preserve_order_build
                && spec_max_seq(probe_morsels@) + 1 + um.len() <= u64::MAX as int ==> frames_rows(
                out@,
            ) == probe_part + um_part)
            &&& (spec_emit_build(lib, params.args.how) && params.preserve_order_build
                && spec_max_seq(probe_morsels@) + 1 + um.len() <= u64::MAX as int
                ==> exists|umw: Seq<crate::table::UnmatchedRow>|
                {
                    &&& #[trigger] crate::ordered::um_sorted(umw)
                    &&& crate::table::unmatched_view(umw).to_multiset() == um.to_multiset()
                    &&& frames_rows(out@) == probe_part + postprocessed(
                        padded_unmatched(crate::table::unmatched_view(umw), ppw, lib),
                        fc,
                        osv,
                        lkv,
                    )
                })
            &&& forall|t: int| 0 <= t < out@.len() ==> (#[trigger] out@[t]).wf()
            &&& forall|t: int| 0 <= t < out@.len() ==> 1 <= (#[trigger] out@[t]).spec_height()
            &&& (!params.preserve_order_probe && !spec_emit_build(lib, params.args.how)
                ==> forall|t: int|
                    0 <= t < out@.len() ==> (#[trigger] out@[t]).spec_height()
                        <= ideal_morsel_size)
            &&& (params.preserve_order_probe && !spec_emit_build(lib, params.args.how)
                ==> out@.len() <= probe_morsels@.len())
        }),
{
    let lib = left_is_build;
    let n = tables.len();
    let ne = params.args.nulls_equal;
    let eup = if lib {
        matches!(params.args.how, JoinType::Right | JoinType::Full)
    } else {
        matches!(params.args.how, JoinType::Left | JoinType::Full)
    };
    let eub = if lib {
        matches!(params.args.how, JoinType::Left | JoinType::Full)
    } else {
        matches!(params.args.how, JoinType::Right | JoinType::Full)
    };
    let fc = matches!(params.args.how, JoinType::Full) && params.args.should_coalesce();
    let ordered = params.preserve_order_probe;
    let bw = if lib {
        params.left_payload_schema.len()
    } else {
        params.right_payload_schema.len()
    };
    let ppw = if lib {
        params.right_payload_schema.len()
    } else {
        params.left_payload_schema.len()
    };
    let out_names = crate::names::concat_name_lists(
        &params.left_payload_schema,
        &params.right_payload_schema,
    );
    proof {
        assert(names_view(out_names@) == out_schema(params));
        assert(out_names@.len() == bw + ppw);
    }
    let ghost tables0 = tables@;
    let ghost msv = probe_morsels@;
    let ghost pkidx = if lib {
        params.right_key_idxs@
    } else {
        params.left_key_idxs@
    };
    let ghost psel = if lib {
        sel_view(params.right_payload_select@)
    } else {
        sel_view(params.left_payload_select@)
    };
    let ghost osv = out_schema(params);
    let ghost lkv = names_view(params.left_key_schema@);
    let mut tables = tables;
    let mut out: Vec<Frame> = Vec::new();
    let mut max_seq: u64 = 0;
    let mut m: usize = 0;
    proof {
        assert(msv.take(0) =~= Seq::<Morsel>::empty());
        assert(frames_rows(out@) =~= postprocessed(
            probe_phase_rows(
                tables0,
                msv.take(0),
                pkidx,
                psel,
                n as int,
                ne,
                eup,
                lib,
                bw as nat,
                ordered,
            ),
            fc,
            osv,
            lkv,
        ));
    }
    while m < probe_morsels.len()
        invariant
            0 <= m <= msv.len(),
            msv == probe_morsels@,
            params.wf(),
            lib == left_is_build,
            ne == params.args.nulls_equal,
            eup == spec_emit_probe(lib, params.args.how),
            eub == spec_emit_build(lib, params.args.how),
            fc == params.spec_full_coalesce(),
            ordered == params.preserve_order_probe,
            pkidx == if lib {
                params.right_key_idxs@
            } else {
                params.left_key_idxs@
            },
            psel == if lib {
                sel_view(params.right_payload_select@)
            } else {
                sel_view(params.left_payload_select@)
            },
            bw == if lib {
                params.left_payload_schema@.len()
            } else {
                params.right_payload_schema@.len()
            },
            ppw == if lib {
                params.right_payload_schema@.len()
            } else {
                params.left_payload_schema@.len()
            },
            osv == out_schema(params),
            lkv == names_view(params.left_key_schema@),
            names_view(out_names@) == osv,
            out_names@.len() == bw + ppw,
            1 <= ideal_morsel_size <= 0xFFFF_FFFF,
            1 <= n <= 0x7FFF,
            n == tables0.len(),
            side_morsels_wf(
                msv,
                (if lib {
                    params.right_input_schema@.len()
                } else {
                    params.left_input_schema@.len()
                }) as nat,
            ),
            forall|m2: int| 0 <= m2 < msv.len() ==> (#[trigger] msv[m2]).seq < u64::MAX,
            params.spec_full_coalesce() ==> coalesce_ok(osv, lkv, 0, 0),
            forall|q: int| 0 <= q < tables0.len() ==> (#[trigger] tables0[q]).wf(),
            tables_partitioned(tables0),
            forall|q: int| 0 <= q < tables0.len() ==> (#[trigger] tables0[q]).names@.len() == bw,
            tables@.len() == n,
            forall|q: int|
                #![trigger tables@[q]]
                0 <= q < n ==> {
                    &&& tables@[q].wf()
                    &&& tables@[q].names@ == tables0[q].names@
                    &&& tables@[q].keys@ == tables0[q].keys@
                    &&& tables@[q].rows@ == tables0[q].rows@
                    &&& tables@[q].chunk_seqs@ == tables0[q].chunk_seqs@
                    &&& tables@[q].marks@.len() == tables0[q].marks@.len()
                },
            forall|q: int, c: int|
                #![trigger tables@[q].marks@[c]]
                0 <= q < n && 0 <= c < tables0[q].marks@.len() ==> tables@[q].marks@[c]@.len()
                    == tables0[q].marks@[c]@.len(),
            forall|q: int, c: int, i: int|
                #![trigger tables@[q].marks@[c]@[i]]
                0 <= q < n && 0 <= c < tables0[q].marks@.len() && 0 <= i
                    < tables0[q].marks@[c]@.len() ==> tables@[q].marks@[c]@[i] == mark_after_phase(
                    bools_view(tables0[q].marks@)[c][i],
                    chunks_view(tables0[q].keys@)[c][i],
                    msv.take(m as int),
                    pkidx,
                    n as int,
                    ne,
                    eup,
                    ordered,
                    eub,
                ),
            max_seq as int == spec_max_seq(msv.take(m as int)),
            frames_rows(out@) == postprocessed(
                probe_phase_rows(
                    tables0,
                    msv.take(m as int),
                    pkidx,
                    psel,
                    n as int,
                    ne,
                    eup,
                    lib,
                    bw as nat,
                    ordered,
                ),
                fc,
                osv,
                lkv,
            ),
            forall|t: int| 0 <= t < out@.len() ==> (#[trigger] out@[t]).wf(),
            forall|t: int| 0 <= t < out@.len() ==> 1 <= (#[trigger] out@[t]).spec_height(),
            !ordered ==> forall|t: int|
                0 <= t < out@.len() ==> (#[trigger] out@[t]).spec_height() <= ideal_morsel_size,
            ordered ==> out@.len() <= m,
        decreases probe_morsels.len() - m,
    {
        let df = &probe_morsels[m].df;
        proof {
            assert(msv[m as int].wf());
            assert(df.wf());
            assert(forall|k: int|
                0 <= k < pkidx.len() ==> (#[trigger] pkidx[k]) < df.names@.len());
        }
        let pkidx_exec = if lib {
            &params.right_key_idxs
        } else {
            &params.left_key_idxs
        };
        let psel_exec = if lib {
            &params.right_payload_select
        } else {
            &params.left_payload_select
        };
        let keys = select_keys(df, pkidx_exec);
        let payload = select_payload(df, psel_exec);
        let ghost kv = keys_of_frame(morsel_rows(msv[m as int]), pkidx);
        proof {
            assert(rows_view(keys@) == kv);
            assert(rows_view(payload.rows@) =~= payload_rows(msv[m as int], psel));
            assert(payload.spec_height() == keys@.len());
            assert(names_view(payload.names@).len() == payload.names@.len());
            assert(payload.names@.len() == ppw) by {
                assert(names_view(payload.names@) == selected_names(psel));
            }
            assert(forall|i: int|
                0 <= i < payload.rows@.len() ==> (#[trigger] payload.rows@[i])@.len() == ppw);
        }
        let order = if ordered {
            identity_order(keys.len())
        } else {
            partition_major_order(&keys, n, eup, ne)
        };
        let ghost ord = order@.map_values(|u: usize| u as int);
        proof {
            assert(ord == spec_probe_order(msv[m as int], pkidx, n as int, eup, ne, ordered));
            assert(tables_partitioned(tables@)) by {
                assert forall|q: int, c: int, i: int|
                    #![trigger chunks_view(tables@[q].keys@)[c][i]]
                    0 <= q < tables@.len() && 0 <= c < tables@[q].keys@.len() && 0 <= i
                        < chunks_view(tables@[q].keys@)[c].len() implies crate::keys::partition_of(
                    chunks_view(tables@[q].keys@)[c][i],
                    tables@.len() as int,
                ) == q by {
                    assert(chunks_view(tables@[q].keys@) == chunks_view(tables0[q].keys@));
                }
            }
        }
        let ghost tables_pre = tables@;
        let rows = probe_rows(
            &mut tables,
            &order,
            &keys,
            &payload.rows,
            ne,
            eub,
            eup,
            lib,
            bw,
        );
        proof {
            lemma_rows_for_order_tables(
                tables_pre,
                tables0,
                ord,
                rows_view(keys@),
                rows_view(payload.rows@),
                ne,
                eup,
                lib,
                bw as nat,
            );
            assert(rows_view(rows@) == rows_for_order(
                tables0,
                ord,
                kv,
                payload_rows(msv[m as int], psel),
                ne,
                eup,
                lib,
                bw as nat,
            ));
            crate::probe::lemma_rows_for_order_widths(
                tables0,
                ord,
                kv,
                payload_rows(msv[m as int], psel),
                ne,
                eup,
                lib,
                bw as nat,
                ppw as nat,
            );
            assert forall|t: int| 0 <= t < rows@.len() implies (#[trigger] rows@[t])@.len()
                == out_names@.len() by {
                assert(rows_view(rows@)[t] == rows@[t]@);
            }
        }
        let frame = Frame { names: copy_names(&out_names), rows };
        proof {
            assert(names_view(frame.names@) == osv);
            assert(frame.names@.len() == out_names@.len());
            assert(frame.wf());
            if fc {
                assert(coalesce_ok(names_view(frame.names@), lkv, 0, 0));
            }
        }
        let frame2 = postprocess_join(frame, fc, &params.left_key_schema);
        let ghost new_rows = rows_for_order(
            tables0,
            ord,
            kv,
            payload_rows(msv[m as int], psel),
            ne,
            eup,
            lib,
            bw as nat,
        );
        proof {
            assert(rows_view(frame2.rows@) =~= postprocessed(new_rows, fc, osv, lkv)) by {
                if fc {
                    assert forall|i: int| 0 <= i < new_rows.len() implies rows_view(
                        frame2.rows@,
                    )[i] == postprocessed(new_rows, fc, osv, lkv)[i] by {
                        assert(rows_view(frame2.rows@)[i] == coalesce_cols(
                            names_view(frame.names@),
                            lkv,
                            0,
                            0,
                        ).map_values(
                            |pl: (int, Option<int>)| plan_cell(rows_view(frame.rows@)[i], pl),
                        ));
                    }
                }
            }
        }
        let ghost out_pre = frames_rows(out@);
        let ghost f2rows = rows_view(frame2.rows@);
        if ordered {
            // One output morsel per input morsel; an empty result emits
            // nothing.
            if frame2.height() > 0 {
                let ghost out_snap = out@;
                out.push(frame2);
                proof {
                    assert(out@ == out_snap.push(out@.last()));
                    assert(out@.drop_last() =~= out_snap);
                    assert(rows_view(out@.last().rows@) == f2rows);
                    assert(frames_rows(out@) == out_pre + f2rows);
                }
            } else {
                proof {
                    assert(f2rows =~= Seq::<Seq<Cell>>::empty());
                    assert(frames_rows(out@) =~= out_pre + f2rows);
                }
            }
        } else {
            let new_frames = split_frames(frame2.rows, &frame2.names, ideal_morsel_size);
            let ghost nfv = new_frames@;
            let mut new_frames = new_frames;
            let ghost mut t: int = 0;
            proof {
                assert(nfv.take(0) =~= Seq::<Frame>::empty());
                assert(frames_rows(nfv.take(0)) =~= Seq::<Seq<Cell>>::empty());
                assert(out_pre + frames_rows(nfv.take(0)) =~= out_pre);
            }
            while new_frames.len() > 0
                invariant
                    0 <= t <= nfv.len(),
                    new_frames@ == nfv.skip(t),
                    frames_rows(out@) == out_pre + frames_rows(nfv.take(t)),
                    forall|x: int| 0 <= x < nfv.len() ==> (#[trigger] nfv[x]).wf(),
                    forall|x: int|
                        0 <= x < nfv.len() ==> 1 <= (#[trigger] nfv[x]).spec_height()
                            <= ideal_morsel_size,
                    forall|x: int| 0 <= x < out@.len() ==> (#[trigger] out@[x]).wf(),
                    forall|x: int| 0 <= x < out@.len() ==> 1 <= (#[trigger] out@[x]).spec_height(),
                    forall|x: int|
                        0 <= x < out@.len() ==> (#[trigger] out@[x]).spec_height()
                            <= ideal_morsel_size,
                decreases new_frames.len(),
            {
                assert(t < nfv.len()) by {
                    assert(nfv.skip(t).len() > 0);
                }
                let f = new_frames.remove(0);
                assert(f == nfv[t]);
                assert(new_frames@ =~= nfv.skip(t + 1));
                let ghost out_snap = out@;
                out.push(f);
                proof {
                    assert(out@ == out_snap.push(out@.last()));
                    assert(out@.drop_last() =~= out_snap);
                    assert(nfv.take(t + 1).drop_last() =~= nfv.take(t));
                    assert(nfv.take(t + 1).last() == nfv[t]);
                    assert(frames_rows(out@) =~= out_pre + frames_rows(nfv.take(t + 1)));
                    t = t + 1;
                }
            }
            proof {
                assert(nfv.skip(t).len() == 0);
                assert(nfv.take(t) =~= nfv);
                assert(frames_rows(out@) == out_pre + frames_rows(nfv));
                assert(frames_rows(nfv) == rows_view(frame2.rows@));
            }
        }
        proof {
            assert(frames_rows(out@) == out_pre + f2rows);
            assert(msv.take(m + 1).drop_last() =~= msv.take(m as int));
            assert(msv.take(m + 1).last() == msv[m as int]);
            let phase_pre = probe_phase_rows(
                tables0,
                msv.take(m as int),
                pkidx,
                psel,
                n as int,
                ne,
                eup,
                lib,
                bw as nat,
                ordered,
            );
            assert(probe_phase_rows(
                tables0,
                msv.take(m + 1),
                pkidx,
                psel,
                n as int,
                ne,
                eup,
                lib,
                bw as nat,
                ordered,
            ) == phase_pre + new_rows);
            lemma_postprocessed_add(phase_pre, new_rows, fc, osv, lkv);
        }
        let seq_m = probe_morsels[m].seq;
        if seq_m > max_seq {
            max_seq = seq_m;
        }
        proof {
            assert(max_seq as int == spec_max_seq(msv.take(m + 1)));
            assert forall|q: int, c: int, i: int|
                #![trigger tables@[q].marks@[c]@[i]]
                0 <= q < n && 0 <= c < tables0[q].marks@.len() && 0 <= i
                    < tables0[q].marks@[c]@.len() implies tables@[q].marks@[c]@[i]
                == mark_after_phase(
                bools_view(tables0[q].marks@)[c][i],
                chunks_view(tables0[q].keys@)[c][i],
                msv.take(m + 1),
                pkidx,
                n as int,
                ne,
                eup,
                ordered,
                eub,
            ) by {
                assert(tables_pre[q].marks@[c]@[i] == mark_after_phase(
                    bools_view(tables0[q].marks@)[c][i],
                    chunks_view(tables0[q].keys@)[c][i],
                    msv.take(m as int),
                    pkidx,
                    n as int,
                    ne,
                    eup,
                    ordered,
                    eub,
                ));
                assert(chunks_view(tables_pre[q].keys@) == chunks_view(tables0[q].keys@));
                assert(tables@[q].marks@[c]@[i] == probed_mark(
                    tables_pre[q].marks@[c]@[i],
                    chunks_view(tables_pre[q].keys@)[c][i],
                    ord,
                    rows_view(keys@),
                    ne,
                    eub,
                ));
            }
        }
        m += 1;
    }
    proof {
        assert(msv.take(msv.len() as int) =~= msv);
    }
    if !eub {
        return out;
    }
    assert(max_seq < u64::MAX) by {
        if msv.len() > 0 {
            lemma_max_seq_bound(msv);
        }
    }
    let start_seq = max_seq + 1;
    let mut total: usize = 0;
    let mut q: usize = 0;
    while q < tables.len()
        invariant
            0 <= q <= tables@.len(),
            forall|q2: int| 0 <= q2 < tables@.len() ==> (#[trigger] tables@[q2]).wf(),
        decreases tables.len() - q,
    {
        let nk = tables[q].num_keys();
        if total <= usize::MAX - nk {
            total += nk;
        } else {
            total = usize::MAX;
        }
        q += 1;
    }
    let total_c = if (total as u64) > 0xFFFF_FFFF_FFFFu64 {
        assert(usize::MAX as int > 0xFFFF_FFFF_FFFF);
        0xFFFF_FFFF_FFFFu64 as usize
    } else {
        total
    };
    assert(total_c as int <= 0xFFFF_FFFF_FFFF);
    let msize = morsel_size_for(total_c, ideal_morsel_size, n);
    proof {
        assert(forall|q2: int|
            0 <= q2 < tables@.len() ==> (#[trigger] tables@[q2]).names@.len() + ppw
                == out_names@.len());
    }
    let ghost mut um_w: Seq<crate::table::UnmatchedRow> = Seq::empty();
    let um_morsels: Option<Vec<Morsel>>;
    if params.preserve_order_build {
        // Order-preserving emission: all partitions' unmatched rows merged
        // into origin order before padding and slicing.
        let um = crate::ordered::ordered_unmatched(&tables, bw);
        proof {
            um_w = um@;
        }
        let mut rows: Vec<Vec<Cell>> = Vec::new();
        let mut nulls: Vec<Cell> = Vec::new();
        let mut w: usize = 0;
        while w < ppw
            invariant
                0 <= w <= ppw,
                nulls@.len() == w,
                forall|x: int| 0 <= x < w ==> nulls@[x] is None,
            decreases ppw - w,
        {
            nulls.push(None);
            w += 1;
        }
        assert(nulls@ =~= null_row(ppw as nat));
        let mut t2: usize = 0;
        while t2 < um.len()
            invariant
                0 <= t2 <= um@.len(),
                um_w == um@,
                nulls@ == null_row(ppw as nat),
                bw + ppw == out_names@.len(),
                forall|x: int| 0 <= x < um@.len() ==> (#[trigger] um@[x]).row@.len() == bw,
                rows@.len() == t2,
                forall|x: int|
                    0 <= x < t2 ==> (#[trigger] rows@[x])@ == crate::probe::combine_row(
                        um@[x].row@,
                        null_row(ppw as nat),
                        lib,
                    ),
                forall|x: int|
                    0 <= x < rows@.len() ==> (#[trigger] rows@[x])@.len() == out_names@.len(),
            decreases um.len() - t2,
        {
            let row = if lib {
                crate::frame::concat_cells(&um[t2].row, &nulls)
            } else {
                crate::frame::concat_cells(&nulls, &um[t2].row)
            };
            rows.push(row);
            t2 += 1;
        }
        proof {
            assert forall|x: int| 0 <= x < rows@.len() implies rows_view(rows@)[x]
                == padded_unmatched(crate::table::unmatched_view(um@), ppw as nat, lib)[x] by {
                assert(rows_view(rows@)[x] == rows@[x]@);
                assert(crate::table::unmatched_view(um@)[x] == (
                    um@[x].seq,
                    um@[x].idx as int,
                    um@[x].row@,
                ));
            }
            assert(rows_view(rows@) =~= padded_unmatched(
                crate::table::unmatched_view(um@),
                ppw as nat,
                lib,
            ));
        }
        let row_count = rows.len();
        if (start_seq as u128) + (row_count as u128) <= (u64::MAX as u128) {
            um_morsels = Some(
                crate::emit::slice_into_morsels(rows, &out_names, msize, start_seq),
            );
        } else {
            um_morsels = None;
        }
    } else {
        um_morsels = emit_unmatched_guarded(&tables, &out_names, ppw, lib, msize, start_seq);
    }
    proof {
        lemma_all_unmatched_final(
            tables@,
            tables0,
            msv,
            pkidx,
            n as int,
            ne,
            eup,
            ordered,
            eub,
        );
    }
    match um_morsels {
        None => {
            proof {
                assert(start_seq as int + all_unmatched(tables@).len() > u64::MAX as int);
            }
            out
        },
        Some(ums) => {
            let ghost umv = ums@;
            let ghost out_pre = frames_rows(out@);
            let ghost um_rows = if params.preserve_order_build {
                padded_unmatched(crate::table::unmatched_view(um_w), ppw as nat, lib)
            } else {
                padded_unmatched(all_unmatched(tables@), ppw as nat, lib)
            };
            let mut ums = ums;
            let ghost mut t: int = 0;
            proof {
                assert(umv.take(0) =~= Seq::<Morsel>::empty());
                assert(crate::emit::morsels_rows(umv.take(0)) =~= Seq::<Seq<Cell>>::empty());
                assert(postprocessed(
                    crate::emit::morsels_rows(umv.take(0)),
                    fc,
                    osv,
                    lkv,
                ) =~= Seq::<Seq<Cell>>::empty());
                assert(frames_rows(out@) =~= out_pre + postprocessed(
                    crate::emit::morsels_rows(umv.take(0)),
                    fc,
                    osv,
                    lkv,
                ));
            }
            while ums.len() > 0
                invariant
                    0 <= t <= umv.len(),
                    ums@ == umv.skip(t),
                    fc == params.spec_full_coalesce(),
                    osv == out_schema(params),
                    lkv == names_view(params.left_key_schema@),
                    params.spec_full_coalesce() ==> coalesce_ok(osv, lkv, 0, 0),
                    forall|x: int| 0 <= x < umv.len() ==> (#[trigger] umv[x]).df.wf(),
                    forall|x: int|
                        0 <= x < umv.len() ==> names_view((#[trigger] umv[x]).df.names@) == osv,
                    forall|x: int|
                        0 <= x < umv.len() ==> 1 <= (#[trigger] umv[x]).df.spec_height(),
                    frames_rows(out@) == out_pre + postprocessed(
                        crate::emit::morsels_rows(umv.take(t)),
                        fc,
                        osv,
                        lkv,
                    ),
                    forall|x: int| 0 <= x < out@.len() ==> (#[trigger] out@[x]).wf(),
                    forall|x: int| 0 <= x < out@.len() ==> 1 <= (#[trigger] out@[x]).spec_height(),
                decreases ums.len(),
            {
                assert(t < umv.len()) by {
                    assert(umv.skip(t).len() > 0);
                }
                let um = ums.remove(0);
                assert(um == umv[t]);
                assert(ums@ =~= umv.skip(t + 1));
                proof {
                    if fc {
                        assert(coalesce_ok(names_view(um.df.names@), lkv, 0, 0));
                    }
                }
                let f2 = postprocess_join(um.df, fc, &params.left_key_schema);
                let ghost mrows = rows_view(umv[t].df.rows@);
                proof {
                    assert(rows_view(f2.rows@) =~= postprocessed(mrows, fc, osv, lkv)) by {
                        if fc {
                            assert forall|i: int| 0 <= i < mrows.len() implies rows_view(
                                f2.rows@,
                            )[i] == postprocessed(mrows, fc, osv, lkv)[i] by {
                                assert(rows_view(f2.rows@)[i] == coalesce_cols(
                                    names_view(umv[t].df.names@),
                                    lkv,
                                    0,
                                    0,
                                ).map_values(
                                    |pl: (int, Option<int>)| plan_cell(
                                        rows_view(umv[t].df.rows@)[i],
                                        pl,
                                    ),
                                ));
                            }
                        }
                    }
                }
                let ghost out_snap = out@;
                out.push(f2);
                proof {
                    assert(out@ == out_snap.push(out@.last()));
                    assert(out@.drop_last() =~= out_snap);
                    assert(umv.take(t + 1).drop_last() =~= umv.take(t));
                    assert(umv.take(t + 1).last() == umv[t]);
                    assert(crate::emit::morsels_rows(umv.take(t + 1))
                        == crate::emit::morsels_rows(umv.take(t)) + mrows);
                    lemma_postprocessed_add(
                        crate::emit::morsels_rows(umv.take(t)),
                        mrows,
                        fc,
                        osv,
                        lkv,
                    );
                    assert(frames_rows(out@) =~= out_pre + postprocessed(
                        crate::emit::morsels_rows(umv.take(t + 1)),
                        fc,
                        osv,
                        lkv,
                    ));
                    t = t + 1;
                }
            }
            proof {
                assert(umv.skip(t).len() == 0);
                assert(umv.take(t) =~= umv);
                assert(crate::emit::morsels_rows(umv) == um_rows);
                if params.preserve_order_build {
                    let um_final = all_unmatched_final(
                        tables0,
                        msv,
                        pkidx,
                        n as int,
                        ne,
                        eup,
                        ordered,
                        eub,
                    );
                    assert(crate::table::unmatched_view(um_w).to_multiset()
                        == um_final.to_multiset());
                    assert(crate::ordered::um_sorted(um_w));
                }
            }
            out
        },
    }
}

/// The largest sequence number is one of the sequence numbers.
pub proof fn lemma_max_seq_bound(ms: Seq<Morsel>)
    requires
        forall|m: int| 0 <= m < ms.len() ==> (#[trigger] ms[m]).seq < u64::MAX,
    ensures
        spec_max_seq(ms) < u64::MAX as int,
    decreases ms.len(),
{
    if ms.len() > 0 {
        lemma_max_seq_bound(ms.drop_last());
    }
}

/// After the probe phase, the unmatched rows of the actual tables are the
/// unmatched rows predicted from the initial tables and the probe morsels.
pub proof fn lemma_all_unmatched_final(
    tables: Seq<ProbeTable>,
    tables0: Seq<ProbeTable>,
    ms: Seq<Morsel>,
    key_idxs: Seq<usize>,
    n: int,
    nulls_equal: bool,
    emit_unmatched: bool,
    ordered: bool,
    mark_matches: bool,
)
    requires
        tables.len() == tables0.len(),
        forall|q: int|
            #![trigger tables[q]]
            0 <= q < tables0.len() ==> {
                &&& tables[q].keys@ == tables0[q].keys@
                &&& tables[q].rows@ == tables0[q].rows@
                &&& tables[q].chunk_seqs@ == tables0[q].chunk_seqs@
                &&& tables[q].marks@.len() == tables0[q].marks@.len()
            },
        forall|q: int, c: int|
            #![trigger tables[q].marks@[c]]
            0 <= q < tables0.len() && 0 <= c < tables0[q].marks@.len()
                ==> tables[q].marks@[c]@.len() == tables0[q].marks@[c]@.len(),
        forall|q: int, c: int, i: int|
            #![trigger tables[q].marks@[c]@[i]]
            0 <= q < tables0.len() && 0 <= c < tables0[q].marks@.len() && 0 <= i
                < tables0[q].marks@[c]@.len() ==> tables[q].marks@[c]@[i] == mark_after_phase(
                bools_view(tables0[q].marks@)[c][i],
                chunks_view(tables0[q].keys@)[c][i],
                ms,
                key_idxs,
                n,
                nulls_equal,
                emit_unmatched,
                ordered,
                mark_matches,
            ),
    ensures
        all_unmatched(tables) == all_unmatched_final(
            tables0,
            ms,
            key_idxs,
            n,
            nulls_equal,
            emit_unmatched,
            ordered,
            mark_matches,
        ),
    decreases tables.len(),
{
    if tables.len() > 0 {
        lemma_all_unmatched_final(
            tables.drop_last(),
            tables0.drop_last(),
            ms,
            key_idxs,
            n,
            nulls_equal,
            emit_unmatched,
            ordered,
            mark_matches,
        );
        let q = tables.len() - 1;
        assert(tables[q].keys@ == tables0[q].keys@);
        assert(bools_view(tables.last().marks@) =~~= final_marks(
            tables0.last(),
            ms,
            key_idxs,
            n,
            nulls_equal,
            emit_unmatched,
            ordered,
            mark_matches,
        )) by {
            assert forall|c: int|
                0 <= c < tables.last().marks@.len() implies bools_view(tables.last().marks@)[c]
                =~= final_marks(
                tables0.last(),
                ms,
                key_idxs,
                n,
                nulls_equal,
                emit_unmatched,
                ordered,
                mark_matches,
            )[c] by {
                assert(bools_view(tables.last().marks@)[c] == tables.last().marks@[c]@);
                assert forall|i: int|
                    0 <= i < tables0.last().marks@[c]@.len() implies tables.last().marks@[c]@[i]
                    == final_marks(
                    tables0.last(),
                    ms,
                    key_idxs,
                    n,
                    nulls_equal,
                    emit_unmatched,
                    ordered,
                    mark_matches,
                )[c][i] by {
                    assert(tables[q].marks@[c]@[i] == mark_after_phase(
                        bools_view(tables0[q].marks@)[c][i],
                        chunks_view(tables0[q].keys@)[c][i],
                        ms,
                        key_idxs,
                        n,
                        nulls_equal,
                        emit_unmatched,
                        ordered,
                        mark_matches,
                    ));
                }
            }
        }
        assert(chunks_view(tables.last().rows@) == chunks_view(tables0.last().rows@));
        assert(tables.last().chunk_seqs@ == tables0.last().chunk_seqs@);
    }
}

/// Saturating total height of a morsel list.
pub open spec fn spec_total_height(ms: Seq<Morsel>) -> int
    decreases ms.len(),
{
    if ms.len() == 0 {
        0
    } else {
        crate::sample::sat_add(spec_total_height(ms.drop_last()), ms.last().df.spec_height() as int)
    }
}

/// The extrapolated distinct-key estimate of one side, saturating at the
/// machine limit.
pub open spec fn spec_side_card(ms: Seq<Morsel>, key_idxs: Seq<usize>, len: int, limit: int) -> int {
    let e = crate::sample::extrapolated(
        crate::keys::distinct_keys(crate::sample::all_keys(ms, key_idxs)) as int,
        len,
        limit,
    );
    if e > usize::MAX as int {
        usize::MAX as int
    } else {
        e
    }
}

/// The build side the pipeline settles on: the pre-set side when the order
/// arguments or a zero sample limit fixed it, else the sampled choice.
pub open spec fn spec_decided_build_side(
    params: &EquiJoinParams,
    left: Seq<Morsel>,
    right: Seq<Morsel>,
    limit: int,
) -> bool {
    match params.left_is_build {
        Some(b) => b,
        None => {
            let ll = spec_total_height(left);
            let rl = spec_total_height(right);
            crate::sample::spec_choose_build_side(
                ll >= limit,
                rl >= limit,
                ll,
                rl,
                spec_side_card(left, params.left_key_idxs@, ll, limit),
                spec_side_card(right, params.right_key_idxs@, rl, limit),
            )
        },
    }
}

/// Saturating total height of a morsel list.
pub fn total_height(ms: &Vec<Morsel>) -> (r: usize)
    ensures
        r as int == spec_total_height(ms@),
{
    let mut total: usize = 0;
    let mut m: usize = 0;
    proof {
        assert(ms@.take(0) =~= Seq::<Morsel>::empty());
    }
    while m < ms.len()
        invariant
            0 <= m <= ms@.len(),
            total as int == spec_total_height(ms@.take(m as int)),
        decreases ms.len() - m,
    {
        proof {
            assert(ms@.take(m + 1).drop_last() =~= ms@.take(m as int));
            assert(ms@.take(m + 1).last() == ms@[m as int]);
        }
        let h = ms[m].df.height();
        if total <= usize::MAX - h {
            total += h;
        } else {
            total = usize::MAX;
        }
        m += 1;
    }
    proof {
        assert(ms@.take(ms@.len() as int) =~= ms@);
    }
    total
}


/// Partitions the build morsels and materializes the per-partition probe
/// tables: for each partition, the non-empty per-morsel slices in arrival
/// order, unmarked, with their origin sequence numbers.
pub fn build_tables(
    bms: &Vec<Morsel>,
    params: &EquiJoinParams,
    left_is_build: bool,
    num_partitions: usize,
) -> (tables: Vec<ProbeTable>)
    requires
        params.wf(),
        num_partitions >= 1,
        side_morsels_wf(
            bms@,
            (if left_is_build {
                params.left_input_schema@.len()
            } else {
                params.right_input_schema@.len()
            }) as nat,
        ),
    ensures
        ({
            let lib = left_is_build;
            let kidx = if lib {
                params.left_key_idxs@
            } else {
                params.right_key_idxs@
            };
            let sel = if lib {
                sel_view(params.left_payload_select@)
            } else {
                sel_view(params.right_payload_select@)
            };
            let pay = if lib {
                params.left_payload_schema@
            } else {
                params.right_payload_schema@
            };
            let n = num_partitions as int;
            let track = spec_emit_build(lib, params.args.how);
            let ne = params.args.nulls_equal;
            &&& tables@.len() == n
            &&& tables_partitioned(tables@)
            &&& forall|p: int|
                #![trigger tables@[p]]
                0 <= p < n ==> {
                    &&& tables@[p].wf()
                    &&& tables@[p].names@.len() == pay.len()
                    &&& names_view(tables@[p].names@) == names_view(pay)
                    &&& chunks_view(tables@[p].keys@) == crate::building::kept_morsels(
                        bms@,
                        kidx,
                        p,
                        n,
                        track,
                        ne,
                    ).map_values(
                        |j: int| chunk_keys_spec(morsel_rows(bms@[j]), kidx, p, n, track, ne),
                    )
                    &&& chunks_view(tables@[p].rows@) == crate::building::kept_morsels(
                        bms@,
                        kidx,
                        p,
                        n,
                        track,
                        ne,
                    ).map_values(
                        |j: int| chunk_rows_spec(
                            morsel_rows(bms@[j]),
                            kidx,
                            sel,
                            p,
                            n,
                            track,
                            ne,
                        ),
                    )
                    &&& tables@[p].chunk_seqs@ == crate::building::kept_morsels(
                        bms@,
                        kidx,
                        p,
                        n,
                        track,
                        ne,
                    ).map_values(|j: int| bms@[j].seq)
                    &&& forall|c: int, i: int|
                        #![trigger bools_view(tables@[p].marks@)[c][i]]
                        0 <= c < tables@[p].marks@.len() && 0 <= i
                            < tables@[p].marks@[c]@.len() ==> !bools_view(
                            tables@[p].marks@,
                        )[c][i]
                }
        }),
{
    let lib = left_is_build;
    let kidx = if lib {
        &params.left_key_idxs
    } else {
        &params.right_key_idxs
    };
    let sel = if lib {
        &params.left_payload_select
    } else {
        &params.right_payload_select
    };
    let pay = if lib {
        &params.left_payload_schema
    } else {
        &params.right_payload_schema
    };
    let track = if lib {
        matches!(params.args.how, JoinType::Left | JoinType::Full)
    } else {
        matches!(params.args.how, JoinType::Right | JoinType::Full)
    };
    let ne = params.args.nulls_equal;
    proof {
        assert(names_view(pay@).len() == pay@.len());
        assert(selected_names(sel_view(sel@)).len() == pay@.len());
    }
    let parts = partition_and_sink(&bms, kidx, sel, num_partitions, track, ne);
    let ghost parts0 = parts@;
    let tables = finalize(parts, pay);
    proof {
        lemma_built_tables_partitioned(
            bms@,
            kidx@,
            sel_view(sel@),
            num_partitions as int,
            track,
            ne,
            parts0,
            tables@,
        );
        assert forall|p: int| #![trigger tables@[p]] 0 <= p < num_partitions implies {
            &&& chunks_view(tables@[p].keys@) == crate::building::kept_morsels(
                bms@,
                kidx@,
                p,
                num_partitions as int,
                track,
                ne,
            ).map_values(
                |j: int| chunk_keys_spec(
                    morsel_rows(bms@[j]),
                    kidx@,
                    p,
                    num_partitions as int,
                    track,
                    ne,
                ),
            )
            &&& chunks_view(tables@[p].rows@) == crate::building::kept_morsels(
                bms@,
                kidx@,
                p,
                num_partitions as int,
                track,
                ne,
            ).map_values(
                |j: int| chunk_rows_spec(
                    morsel_rows(bms@[j]),
                    kidx@,
                    sel_view(sel@),
                    p,
                    num_partitions as int,
                    track,
                    ne,
                ),
            )
            &&& tables@[p].chunk_seqs@ == crate::building::kept_morsels(
                bms@,
                kidx@,
                p,
                num_partitions as int,
                track,
                ne,
            ).map_values(|j: int| bms@[j].seq)
        } by {
            crate::building::lemma_kept_idxs_as_morsels(
                parts0[p]@,
                bms@,
                kidx@,
                p,
                num_partitions as int,
                track,
                ne,
            );
            crate::building::lemma_kept_idxs_in_range(parts0[p]@);
            let km = crate::building::kept_morsels(
                bms@,
                kidx@,
                p,
                num_partitions as int,
                track,
                ne,
            );
            assert(kept_idxs(parts0[p]@) == km);
            assert forall|c: int| 0 <= c < km.len() implies chunks_view(tables@[p].keys@)[c]
                == km.map_values(
                |j: int| chunk_keys_spec(
                    morsel_rows(bms@[j]),
                    kidx@,
                    p,
                    num_partitions as int,
                    track,
                    ne,
                ),
            )[c] by {
                let j = km[c];
                assert(chunks_view(tables@[p].keys@)[c] == rows_view(parts0[p]@[j].keys@));
            }
            assert(chunks_view(tables@[p].keys@) =~= km.map_values(
                |j: int| chunk_keys_spec(
                    morsel_rows(bms@[j]),
                    kidx@,
                    p,
                    num_partitions as int,
                    track,
                    ne,
                ),
            ));
            assert forall|c: int| 0 <= c < km.len() implies chunks_view(tables@[p].rows@)[c]
                == km.map_values(
                |j: int| chunk_rows_spec(
                    morsel_rows(bms@[j]),
                    kidx@,
                    sel_view(sel@),
                    p,
                    num_partitions as int,
                    track,
                    ne,
                ),
            )[c] by {
                let j = km[c];
                assert(chunks_view(tables@[p].rows@)[c] == rows_view(parts0[p]@[j].rows@));
            }
            assert(chunks_view(tables@[p].rows@) =~= km.map_values(
                |j: int| chunk_rows_spec(
                    morsel_rows(bms@[j]),
                    kidx@,
                    sel_view(sel@),
                    p,
                    num_partitions as int,
                    track,
                    ne,
                ),
            ));
            assert forall|c: int| 0 <= c < km.len() implies tables@[p].chunk_seqs@[c]
                == km.map_values(|j: int| bms@[j].seq)[c] by {
                let j = km[c];
                assert(tables@[p].chunk_seqs@[c] == parts0[p]@[j].seq);
            }
            assert(tables@[p].chunk_seqs@ =~= km.map_values(|j: int| bms@[j].seq));
        }
    }
    tables
}

/// The build side's tables and the probe side's morsels, ready for probing.
pub struct PreparedJoin {
    pub left_is_build: bool,
    pub tables: Vec<ProbeTable>,
    pub probe_morsels: Vec<Morsel>,
}

/// Chooses the build side, partitions the build morsels, and materializes
/// the per-partition probe tables.
pub fn prepare(
    params: &EquiJoinParams,
    left: Vec<Morsel>,
    right: Vec<Morsel>,
    num_partitions: usize,
    sample_limit: usize,
) -> (r: PreparedJoin)
    requires
        params.wf(),
        1 <= num_partitions <= 0x7FFF,
        side_morsels_wf(left@, params.left_input_schema@.len() as nat),
        side_morsels_wf(right@, params.right_input_schema@.len() as nat),
        params.left_is_build is None ==> sample_limit > 0,
    ensures
        ({
            let lib = spec_decided_build_side(params, left@, right@, sample_limit as int);
            let bms = if lib {
                left@
            } else {
                right@
            };
            let kidx = if lib {
                params.left_key_idxs@
            } else {
                params.right_key_idxs@
            };
            let sel = if lib {
                sel_view(params.left_payload_select@)
            } else {
                sel_view(params.right_payload_select@)
            };
            let pay = if lib {
                params.left_payload_schema@
            } else {
                params.right_payload_schema@
            };
            let n = num_partitions as int;
            let track = spec_emit_build(lib, params.args.how);
            let ne = params.args.nulls_equal;
            &&& r.left_is_build == lib
            &&& r.probe_morsels@ == (if lib {
                right@
            } else {
                left@
            })
            &&& r.tables@.len() == n
            &&& tables_partitioned(r.tables@)
            &&& forall|p: int|
                #![trigger r.tables@[p]]
                0 <= p < n ==> {
                    &&& r.tables@[p].wf()
                    &&& r.tables@[p].names@.len() == pay.len()
                    &&& names_view(r.tables@[p].names@) == names_view(pay)
                    &&& chunks_view(r.tables@[p].keys@) == crate::building::kept_morsels(
                        bms,
                        kidx,
                        p,
                        n,
                        track,
                        ne,
                    ).map_values(
                        |j: int| chunk_keys_spec(morsel_rows(bms[j]), kidx, p, n, track, ne),
                    )
                    &&& chunks_view(r.tables@[p].rows@) == crate::building::kept_morsels(
                        bms,
                        kidx,
                        p,
                        n,
                        track,
                        ne,
                    ).map_values(
                        |j: int| chunk_rows_spec(morsel_rows(bms[j]), kidx, sel, p, n, track, ne),
                    )
                    &&& r.tables@[p].chunk_seqs@ == crate::building::kept_morsels(
                        bms,
                        kidx,
                        p,
                        n,
                        track,
                        ne,
                    ).map_values(|j: int| bms[j].seq)
                    &&& forall|c: int, i: int|
                        #![trigger bools_view(r.tables@[p].marks@)[c][i]]
                        0 <= c < r.tables@[p].marks@.len() && 0 <= i
                            < r.tables@[p].marks@[c]@.len() ==> !bools_view(
                            r.tables@[p].marks@,
                        )[c][i]
                }
        }),
{
    let lib: bool = match params.left_is_build {
        Some(b) => b,
        None => {
            let ll = total_height(&left);
            let rl = total_height(&right);
            let lsat = ll >= sample_limit;
            let rsat = rl >= sample_limit;
            let cards: Option<(usize, usize)> = if needs_estimate(lsat, rsat, ll, rl) {
                let lc = estimate_cardinality(&left, &params.left_key_idxs, ll, sample_limit);
                let rc = estimate_cardinality(&right, &params.right_key_idxs, rl, sample_limit);
                Some((lc, rc))
            } else {
                None
            };
            choose_build_side(lsat, rsat, ll, rl, cards)
        },
    };
    let (bms, pms) = if lib {
        (left, right)
    } else {
        (right, left)
    };
    let tables = build_tables(&bms, params, lib, num_partitions);
    PreparedJoin { left_is_build: lib, tables, probe_morsels: pms }
}

/// Runs the whole join on buffered inputs: chooses the build side, builds
/// the tables, probes every probe-side morsel in order, coalesces keys, and
/// finally streams the unmatched build rows.
pub fn run_join(
    params: &EquiJoinParams,
    left: Vec<Morsel>,
    right: Vec<Morsel>,
    num_partitions: usize,
    sample_limit: usize,
    ideal_morsel_size: usize,
) -> (out: Vec<Frame>)
    requires
        params.wf(),
        1 <= num_partitions <= 0x7FFF,
        1 <= ideal_morsel_size <= 0xFFFF_FFFF,
        side_morsels_wf(left@, params.left_input_schema@.len() as nat),
        side_morsels_wf(right@, params.right_input_schema@.len() as nat),
        params.left_is_build is None ==> sample_limit > 0,
        forall|m: int| 0 <= m < left@.len() ==> (#[trigger] left@[m]).seq < u64::MAX,
        forall|m: int| 0 <= m < right@.len() ==> (#[trigger] right@[m]).seq < u64::MAX,
        params.spec_full_coalesce() ==> coalesce_ok(
            out_schema(params),
            names_view(params.left_key_schema@),
            0,
            0,
        ),
    ensures
        forall|t: int| 0 <= t < out@.len() ==> (#[trigger] out@[t]).wf(),
        forall|t: int| 0 <= t < out@.len() ==> 1 <= (#[trigger] out@[t]).spec_height(),
        ({
            let lib = spec_decided_build_side(params, left@, right@, sample_limit as int);
            let pms = if lib {
                right@
            } else {
                left@
            };
            let pkidx = if lib {
                params.right_key_idxs@
            } else {
                params.left_key_idxs@
            };
            let psel = if lib {
                sel_view(params.right_payload_select@)
            } else {
                sel_view(params.left_payload_select@)
            };
            let bw = (if lib {
                params.left_payload_schema@.len()
            } else {
                params.right_payload_schema@.len()
            }) as nat;
            let ppw = (if lib {
                params.right_payload_schema@.len()
            } else {
                params.left_payload_schema@.len()
            }) as nat;
            let n = num_partitions as int;
            let ne = params.args.nulls_equal;
            let eup = spec_emit_probe(lib, params.args.how);
            let fc = params.spec_full_coalesce();
            let osv = out_schema(params);
            let lkv = names_view(params.left_key_schema@);
            let ordered = params.preserve_order_probe;
            exists|tables: Seq<ProbeTable>|
                {
                    &&& #[trigger] tables_partitioned(tables)
                    &&& tables.len() == n
                    &&& forall|p: int|
                        #![trigger tables[p]]
                        0 <= p < n ==> tables[p].wf() && chunks_view(tables[p].keys@)
                            == crate::building::kept_morsels(
                            if lib {
                                left@
                            } else {
                                right@
                            },
                            if lib {
                                params.left_key_idxs@
                            } else {
                                params.right_key_idxs@
                            },
                            p,
                            n,
                            spec_emit_build(lib, params.args.how),
                            ne,
                        ).map_values(
                            |j: int| chunk_keys_spec(
                                morsel_rows(
                                    (if lib {
                                        left@
                                    } else {
                                        right@
                                    })[j],
                                ),
                                if lib {
                                    params.left_key_idxs@
                                } else {
                                    params.right_key_idxs@
                                },
                                p,
                                n,
                                spec_emit_build(lib, params.args.how),
                                ne,
                            ),
                        )
                    &&& forall|p: int|
                        #![trigger tables[p].rows]
                        0 <= p < n ==> chunks_view(tables[p].rows@)
                            == crate::building::kept_morsels(
                            if lib {
                                left@
                            } else {
                                right@
                            },
                            if lib {
                                params.left_key_idxs@
                            } else {
                                params.right_key_idxs@
                            },
                            p,
                            n,
                            spec_emit_build(lib, params.args.how),
                            ne,
                        ).map_values(
                            |j: int| chunk_rows_spec(
                                morsel_rows(
                                    (if lib {
                                        left@
                                    } else {
                                        right@
                                    })[j],
                                ),
                                if lib {
                                    params.left_key_idxs@
                                } else {
                                    params.right_key_idxs@
                                },
                                if lib {
                                    sel_view(params.left_payload_select@)
                                } else {
                                    sel_view(params.right_payload_select@)
                                },
                                p,
                                n,
                                spec_emit_build(lib, params.args.how),
                                ne,
                            ),
                        ) && tables[p].chunk_seqs@ == crate::building::kept_morsels(
                            if lib {
                                left@
                            } else {
                                right@
                            },
                            if lib {
                                params.left_key_idxs@
                            } else {
                                params.right_key_idxs@
                            },
                            p,
                            n,
                            spec_emit_build(lib, params.args.how),
                            ne,
                        ).map_values(
                            |j: int| (if lib {
                                left@
                            } else {
                                right@
                            })[j].seq,
                        )
                    &&& (!spec_emit_build(lib, params.args.how) ==> frames_rows(out@)
                        == postprocessed(
                        probe_phase_rows(tables, pms, pkidx, psel, n, ne, eup, lib, bw, ordered),
                        fc,
                        osv,
                        lkv,
                    ))
                    &&& (spec_emit_build(lib, params.args.how) && !params.preserve_order_build
                        && spec_max_seq(pms) + 1 + all_unmatched_final(
                        tables,
                        pms,
                        pkidx,
                        n,
                        ne,
                        eup,
                        ordered,
                        spec_emit_build(lib, params.args.how),
                    ).len() <= u64::MAX as int ==> frames_rows(out@) == postprocessed(
                        probe_phase_rows(tables, pms, pkidx, psel, n, ne, eup, lib, bw, ordered),
                        fc,
                        osv,
                        lkv,
                    ) + postprocessed(
                        padded_unmatched(
                            all_unmatched_final(
                                tables,
                                pms,
                                pkidx,
                                n,
                                ne,
                                eup,
                                ordered,
                                spec_emit_build(lib, params.args.how),
                            ),
                            ppw,
                            lib,
                        ),
                        fc,
                        osv,
                        lkv,
                    ))
                    &&& (spec_emit_build(lib, params.args.how) && params.preserve_order_build
                        && spec_max_seq(pms) + 1 + all_unmatched_final(
                        tables,
                        pms,
                        pkidx,
                        n,
                        ne,
                        eup,
                        ordered,
                        spec_emit_build(lib, params.args.how),
                    ).len() <= u64::MAX as int ==> exists|umw: Seq<crate::table::UnmatchedRow>|
                        {
                            &&& #[trigger] crate::ordered::um_sorted(umw)
                            &&& crate::table::unmatched_view(umw).to_multiset()
                                == all_unmatched_final(
                                tables,
                                pms,
                                pkidx,
                                n,
                                ne,
                                eup,
                                ordered,
                                spec_emit_build(lib, params.args.how),
                            ).to_multiset()
                            &&& frames_rows(out@) == postprocessed(
                                probe_phase_rows(
                                    tables,
                                    pms,
                                    pkidx,
                                    psel,
                                    n,
                                    ne,
                                    eup,
                                    lib,
                                    bw,
                                    ordered,
                                ),
                                fc,
                                osv,
                                lkv,
                            ) + postprocessed(
                                padded_unmatched(
                                    crate::table::unmatched_view(umw),
                                    ppw,
                                    lib,
                                ),
                                fc,
                                osv,
                                lkv,
                            )
                        })
                }
        }),
{
    let prep = prepare(params, left, right, num_partitions, sample_limit);
    let lib = prep.left_is_build;
    let tables = prep.tables;
    let pms = prep.probe_morsels;
    let ghost gtables = tables@;
    proof {
        assert(forall|q: int|
            0 <= q < gtables.len() ==> (#[trigger] gtables[q]).names@.len() == (
            if lib {
                params.left_payload_schema@.len()
            } else {
                params.right_payload_schema@.len()
            }));
    }
    let out = probe_and_emit(tables, &pms, params, lib, ideal_morsel_size);
    proof {
        assert(tables_partitioned(gtables));
    }
    out
}

/// Applies post-join coalescing to every morsel's frame; sequence numbers
/// and heights are kept.
pub fn postprocess_morsels(ms: Vec<Morsel>, full_coalesce: bool, lk: &Vec<Vec<u8>>) -> (r: Vec<
    Morsel,
>)
    requires
        forall|t: int| 0 <= t < ms@.len() ==> (#[trigger] ms@[t]).df.wf(),
        full_coalesce ==> forall|t: int|
            0 <= t < ms@.len() ==> coalesce_ok(
                names_view((#[trigger] ms@[t]).df.names@),
                names_view(lk@),
                0,
                0,
            ),
    ensures
        r@.len() == ms@.len(),
        forall|t: int|
            #![trigger r@[t]]
            0 <= t < ms@.len() ==> {
                &&& r@[t].seq == ms@[t].seq
                &&& r@[t].df.wf()
                &&& r@[t].df.spec_height() == ms@[t].df.spec_height()
                &&& rows_view(r@[t].df.rows@) == postprocessed(
                    rows_view(ms@[t].df.rows@),
                    full_coalesce,
                    names_view(ms@[t].df.names@),
                    names_view(lk@),
                )
            },
{
    let ghost orig = ms@;
    let ghost lkv = names_view(lk@);
    let mut ms = ms;
    let mut r: Vec<Morsel> = Vec::new();
    let ghost mut t: int = 0;
    while ms.len() > 0
        invariant
            0 <= t <= orig.len(),
            ms@ == orig.skip(t),
            lkv == names_view(lk@),
            forall|x: int| 0 <= x < orig.len() ==> (#[trigger] orig[x]).df.wf(),
            full_coalesce ==> forall|x: int|
                0 <= x < orig.len() ==> coalesce_ok(
                    names_view((#[trigger] orig[x]).df.names@),
                    lkv,
                    0,
                    0,
                ),
            r@.len() == t,
            forall|x: int|
                #![trigger r@[x]]
                0 <= x < t ==> {
                    &&& r@[x].seq == orig[x].seq
                    &&& r@[x].df.wf()
                    &&& r@[x].df.spec_height() == orig[x].df.spec_height()
                    &&& rows_view(r@[x].df.rows@) == postprocessed(
                        rows_view(orig[x].df.rows@),
                        full_coalesce,
                        names_view(orig[x].df.names@),
                        lkv,
                    )
                },
        decreases ms.len(),
    {
        assert(t < orig.len()) by {
            assert(orig.skip(t).len() > 0);
        }
        let m = ms.remove(0);
        assert(m == orig[t]);
        assert(ms@ =~= orig.skip(t + 1));
        let seq = m.seq;
        let ghost mnames = names_view(m.df.names@);
        let ghost mrows = rows_view(m.df.rows@);
        let f2 = postprocess_join(m.df, full_coalesce, lk);
        proof {
            assert(rows_view(f2.rows@) =~= postprocessed(mrows, full_coalesce, mnames, lkv)) by {
                if full_coalesce {
                    assert forall|i: int| 0 <= i < mrows.len() implies rows_view(f2.rows@)[i]
                        == postprocessed(mrows, full_coalesce, mnames, lkv)[i] by {
                        assert(rows_view(f2.rows@)[i] == coalesce_cols(
                            mnames,
                            lkv,
                            0,
                            0,
                        ).map_values(|pl: (int, Option<int>)| plan_cell(mrows[i], pl)));
                    }
                }
            }
            if full_coalesce {
                assert(postprocessed(mrows, full_coalesce, mnames, lkv).len() == mrows.len());
            }
        }
        r.push(Morsel { df: f2, seq });
        proof {
            t = t + 1;
        }
    }
    proof {
        assert(orig.skip(t).len() == 0);
    }
    r
}

/// Coalescing every morsel's rows coalesces the concatenated stream.
pub proof fn lemma_morsels_rows_pp(
    a: Seq<Morsel>,
    b: Seq<Morsel>,
    full_coalesce: bool,
    osv: Seq<Seq<u8>>,
    lkv: Seq<Seq<u8>>,
)
    requires
        a.len() == b.len(),
        forall|t: int|
            0 <= t < a.len() ==> rows_view((#[trigger] b[t]).df.rows@) == postprocessed(
                rows_view(a[t].df.rows@),
                full_coalesce,
                osv,
                lkv,
            ),
    ensures
        crate::emit::morsels_rows(b) == postprocessed(
            crate::emit::morsels_rows(a),
            full_coalesce,
            osv,
            lkv,
        ),
    decreases a.len(),
{
    if a.len() == 0 {
        assert(postprocessed(crate::emit::morsels_rows(a), full_coalesce, osv, lkv) =~= Seq::<
            Seq<Cell>,
        >::empty());
    } else {
        assert(forall|t: int|
            0 <= t < a.len() - 1 ==> (#[trigger] a.drop_last()[t]) == a[t]);
        assert(forall|t: int|
            0 <= t < b.len() - 1 ==> (#[trigger] b.drop_last()[t]) == b[t]);
        lemma_morsels_rows_pp(a.drop_last(), b.drop_last(), full_coalesce, osv, lkv);
        lemma_postprocessed_add(
            crate::emit::morsels_rows(a.drop_last()),
            rows_view(a.last().df.rows@),
            full_coalesce,
            osv,
            lkv,
        );
        assert(rows_view(b.last().df.rows@) == postprocessed(
            rows_view(a.last().df.rows@),
            full_coalesce,
            osv,
            lkv,
        ));
    }
}

/// Wraps joined rows as coalesced output frames: one frame in
/// order-preserving mode, frames of at most the ideal size otherwise.
pub fn emit_probe_frames(
    rows: Vec<Vec<Cell>>,
    out_names: &Vec<Vec<u8>>,
    full_coalesce: bool,
    lk: &Vec<Vec<u8>>,
    ordered: bool,
    ideal_morsel_size: usize,
) -> (out: Vec<Frame>)
    requires
        1 <= ideal_morsel_size,
        forall|t: int| 0 <= t < rows@.len() ==> (#[trigger] rows@[t])@.len() == out_names@.len(),
        full_coalesce ==> coalesce_ok(names_view(out_names@), names_view(lk@), 0, 0),
    ensures
        frames_rows(out@) == postprocessed(
            rows_view(rows@),
            full_coalesce,
            names_view(out_names@),
            names_view(lk@),
        ),
        forall|t: int| 0 <= t < out@.len() ==> (#[trigger] out@[t]).wf(),
        forall|t: int| 0 <= t < out@.len() ==> 1 <= (#[trigger] out@[t]).spec_height(),
        !ordered ==> forall|t: int|
            0 <= t < out@.len() ==> (#[trigger] out@[t]).spec_height() <= ideal_morsel_size,
        ordered ==> out@.len() <= 1,
{
    let ghost osv = names_view(out_names@);
    let ghost lkv = names_view(lk@);
    let ghost in_rows = rows_view(rows@);
    let frame = Frame { names: copy_names(out_names), rows };
    proof {
        assert(names_view(frame.names@) == osv);
        assert(frame.names@.len() == out_names@.len());
        assert(frame.wf());
        if full_coalesce {
            assert(coalesce_ok(names_view(frame.names@), lkv, 0, 0));
        }
    }
    let frame2 = postprocess_join(frame, full_coalesce, lk);
    proof {
        assert(rows_view(frame2.rows@) =~= postprocessed(in_rows, full_coalesce, osv, lkv)) by {
            if full_coalesce {
                assert forall|i: int| 0 <= i < in_rows.len() implies rows_view(frame2.rows@)[i]
                    == postprocessed(in_rows, full_coalesce, osv, lkv)[i] by {
                    assert(rows_view(frame2.rows@)[i] == coalesce_cols(
                        names_view(frame.names@),
                        lkv,
                        0,
                        0,
                    ).map_values(|pl: (int, Option<int>)| plan_cell(rows_view(frame.rows@)[i], pl)));
                }
            }
        }
    }
    let ghost f2rows = rows_view(frame2.rows@);
    let mut out: Vec<Frame> = Vec::new();
    if ordered {
        if frame2.height() > 0 {
            out.push(frame2);
            proof {
                assert(out@.drop_last() =~= Seq::<Frame>::empty());
                assert(frames_rows(Seq::<Frame>::empty()) =~= Seq::<Seq<Cell>>::empty());
                assert(rows_view(out@.last().rows@) == f2rows);
                assert(frames_rows(out@) == frames_rows(out@.drop_last()) + rows_view(
                    out@.last().rows@,
                ));
                assert(frames_rows(out@) =~= f2rows);
            }
        } else {
            proof {
                assert(f2rows =~= Seq::<Seq<Cell>>::empty());
                assert(frames_rows(out@) =~= f2rows);
            }
        }
    } else {
        let new_frames = split_frames(frame2.rows, &frame2.names, ideal_morsel_size);
        let ghost nfv = new_frames@;
        let mut new_frames = new_frames;
        let ghost mut t: int = 0;
        proof {
            assert(nfv.take(0) =~= Seq::<Frame>::empty());
            assert(frames_rows(out@) =~= frames_rows(nfv.take(0)));
        }
        while new_frames.len() > 0
            invariant
                0 <= t <= nfv.len(),
                new_frames@ == nfv.skip(t),
                frames_rows(out@) == frames_rows(nfv.take(t)),
                forall|x: int| 0 <= x < nfv.len() ==> (#[trigger] nfv[x]).wf(),
                forall|x: int|
                    0 <= x < nfv.len() ==> 1 <= (#[trigger] nfv[x]).spec_height()
                        <= ideal_morsel_size,
                forall|x: int| 0 <= x < out@.len() ==> (#[trigger] out@[x]).wf(),
                forall|x: int|
                    0 <= x < out@.len() ==> 1 <= (#[trigger] out@[x]).spec_height()
                        <= ideal_morsel_size,
            decreases new_frames.len(),
        {
            assert(t < nfv.len()) by {
                assert(nfv.skip(t).len() > 0);
            }
            let f = new_frames.remove(0);
            assert(f == nfv[t]);
            assert(new_frames@ =~= nfv.skip(t + 1));
            let ghost out_snap = out@;
            out.push(f);
            proof {
                assert(out@ == out_snap.push(out@.last()));
                assert(out@.drop_last() =~= out_snap);
                assert(nfv.take(t + 1).drop_last() =~= nfv.take(t));
                assert(nfv.take(t + 1).last() == nfv[t]);
                assert(frames_rows(out@) =~= frames_rows(nfv.take(t + 1)));
                t = t + 1;
            }
        }
        proof {
            assert(nfv.skip(t).len() == 0);
            assert(nfv.take(t) =~= nfv);
            assert(frames_rows(out@) == rows_view(frame2.rows@));
        }
    }
    out
}

} // verus!
