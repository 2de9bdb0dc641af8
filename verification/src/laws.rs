//! The general laws of the join, proved over the specification functions
//! that the executable contracts are stated with.

use vstd::prelude::*;

use crate::frame::null_row;
use crate::frame::Cell;
use crate::keys::distinct_keys;
use crate::keys::key_is_null;
use crate::keys::key_unmatchable;
use crate::keys::keys_match;
use crate::keys::partition_of;
use crate::probe::combine_row;
use crate::probe::identity_ord;
use crate::probe::probe_row_out;
use crate::probe::row_matches;
use crate::probe::rows_for_order;
use crate::sample::spec_choose_build_side;
use crate::sample::spec_needs_estimate;
use crate::table::chunks_view;
use crate::table::matches_in_chunk;
use crate::table::matches_in_table;
use crate::table::ProbeTable;

verus! {

/// The number of build matches of the processed probe rows, row by row.
pub open spec fn sum_matches(
    tables: Seq<ProbeTable>,
    order: Seq<int>,
    keys: Seq<Seq<Cell>>,
    nulls_equal: bool,
) -> int
    decreases order.len(),
{
    if order.len() == 0 {
        0
    } else {
        sum_matches(tables, order.drop_last(), keys, nulls_equal) + (if key_unmatchable(
            keys[order.last()],
            nulls_equal,
        ) {
            0
        } else {
            row_matches(tables, keys[order.last()], nulls_equal).len() as int
        })
    }
}

/// The number of processed probe rows without any build match.
pub open spec fn count_unmatched_probe(
    tables: Seq<ProbeTable>,
    order: Seq<int>,
    keys: Seq<Seq<Cell>>,
    nulls_equal: bool,
) -> int
    decreases order.len(),
{
    if order.len() == 0 {
        0
    } else {
        count_unmatched_probe(tables, order.drop_last(), keys, nulls_equal) + (if key_unmatchable(
            keys[order.last()],
            nulls_equal,
        ) || row_matches(tables, keys[order.last()], nulls_equal).len() == 0 {
            1int
        } else {
            0int
        })
    }
}

/// Inner-join cardinality: without unmatched-probe emission, the output has
/// exactly one row per (probe row, matching build row) pair, so its size is
/// the sum, over the probe rows, of the number of matching build rows.
pub proof fn law_inner_join_cardinality(
    tables: Seq<ProbeTable>,
    order: Seq<int>,
    keys: Seq<Seq<Cell>>,
    prows: Seq<Seq<Cell>>,
    nulls_equal: bool,
    left_is_build: bool,
    build_width: nat,
)
    ensures
        rows_for_order(
            tables,
            order,
            keys,
            prows,
            nulls_equal,
            false,
            left_is_build,
            build_width,
        ).len() == sum_matches(tables, order, keys, nulls_equal),
    decreases order.len(),
{
    if order.len() > 0 {
        law_inner_join_cardinality(
            tables,
            order.drop_last(),
            keys,
            prows,
            nulls_equal,
            left_is_build,
            build_width,
        );
    }
}

/// Outer cardinality: with unmatched-probe emission, the output has one row
/// per (probe row, matching build row) pair plus one null-padded row per
/// probe row without a match, so its size is the inner cardinality plus the
/// number of matchless probe rows.
pub proof fn law_outer_join_cardinality(
    tables: Seq<ProbeTable>,
    order: Seq<int>,
    keys: Seq<Seq<Cell>>,
    prows: Seq<Seq<Cell>>,
    nulls_equal: bool,
    left_is_build: bool,
    build_width: nat,
)
    ensures
        rows_for_order(
            tables,
            order,
            keys,
            prows,
            nulls_equal,
            true,
            left_is_build,
            build_width,
        ).len() == sum_matches(tables, order, keys, nulls_equal) + count_unmatched_probe(
            tables,
            order,
            keys,
            nulls_equal,
        ),
    decreases order.len(),
{
    if order.len() > 0 {
        law_outer_join_cardinality(
            tables,
            order.drop_last(),
            keys,
            prows,
            nulls_equal,
            left_is_build,
            build_width,
        );
    }
}

/// Partition determinism: a probe row can only match build rows that the
/// partitioner assigned to the probe row's own partition, because matching
/// keys are equal and the partition is a pure function of the key.
pub proof fn law_partition_determinism(
    a: Seq<Cell>,
    b: Seq<Cell>,
    nulls_equal: bool,
    num_partitions: int,
)
    requires
        keys_match(a, b, nulls_equal),
    ensures
        partition_of(a, num_partitions) == partition_of(b, num_partitions),
{
    crate::keys::lemma_matching_keys_same_partition(a, b, nulls_equal, num_partitions);
}

/// Coalescing produces a null key cell exactly when both sides' key cells
/// are null for that output row.
pub proof fn law_coalesced_null(row: Seq<Cell>, src: int, ph: int)
    requires
        0 <= src < row.len(),
        0 <= ph < row.len(),
    ensures
        crate::coalesce::plan_cell(row, (src, Some(ph))) is None <==> (row[src] is None
            && row[ph] is None),
{
}

/// Equal key multisets have equal distinct-key counts: the cardinality
/// estimate of a side does not depend on the order its morsels arrived in.
pub proof fn law_distinct_keys_permutation(a: Seq<Seq<Cell>>, b: Seq<Seq<Cell>>)
    requires
        a.to_multiset() == b.to_multiset(),
    ensures
        distinct_keys(a) == distinct_keys(b),
{
    broadcast use vstd::seq_lib::group_to_multiset_ensures;

    assert forall|k: Seq<Cell>| a.to_set().contains(k) implies b.to_set().contains(k) by {
        assert(a.contains(k));
        assert(a.to_multiset().count(k) > 0);
        assert(b.to_multiset().count(k) > 0);
        assert(b.contains(k));
    }
    assert forall|k: Seq<Cell>| b.to_set().contains(k) implies a.to_set().contains(k) by {
        assert(b.contains(k));
        assert(b.to_multiset().count(k) > 0);
        assert(a.to_multiset().count(k) > 0);
        assert(a.contains(k));
    }
    assert(a.to_set() =~= b.to_set());
}

/// Build-side choice is independent of morsel arrival order: it is a pure
/// function of the two lengths and the two key multisets, both of which any
/// reordering of the morsels preserves.
pub proof fn law_build_choice_order_independent(
    l_sat: bool,
    r_sat: bool,
    ll: int,
    rl: int,
    lkeys1: Seq<Seq<Cell>>,
    lkeys2: Seq<Seq<Cell>>,
    rkeys1: Seq<Seq<Cell>>,
    rkeys2: Seq<Seq<Cell>>,
)
    requires
        lkeys1.to_multiset() == lkeys2.to_multiset(),
        rkeys1.to_multiset() == rkeys2.to_multiset(),
    ensures
        spec_choose_build_side(
            l_sat,
            r_sat,
            ll,
            rl,
            distinct_keys(lkeys1) as int,
            distinct_keys(rkeys1) as int,
        ) == spec_choose_build_side(
            l_sat,
            r_sat,
            ll,
            rl,
            distinct_keys(lkeys2) as int,
            distinct_keys(rkeys2) as int,
        ),
{
    law_distinct_keys_permutation(lkeys1, lkeys2);
    law_distinct_keys_permutation(rkeys1, rkeys2);
}

/// Strongly lopsided sampled sizes pick the smaller side outright, whatever
/// the cardinality estimates would have said.
pub proof fn law_lopsided_no_estimate(ll: int, rl: int, lc1: int, rc1: int, lc2: int, rc2: int)
    requires
        ll * 10 < rl || ll > rl * 10,
    ensures
        !spec_needs_estimate(false, false, ll, rl),
        spec_choose_build_side(false, false, ll, rl, lc1, rc1) == (ll < rl),
        spec_choose_build_side(false, false, ll, rl, lc1, rc1) == spec_choose_build_side(
            false,
            false,
            ll,
            rl,
            lc2,
            rc2,
        ),
{
}

/// Order preservation: processing probe rows in row order appends each next
/// row's match block after everything emitted for the earlier rows, so each
/// probe row's matches appear contiguously and in build-ingestion order.
pub proof fn law_ordered_probe_expansion(
    tables: Seq<ProbeTable>,
    h: nat,
    keys: Seq<Seq<Cell>>,
    prows: Seq<Seq<Cell>>,
    nulls_equal: bool,
    emit_unmatched: bool,
    left_is_build: bool,
    build_width: nat,
)
    requires
        h > 0,
    ensures
        rows_for_order(
            tables,
            identity_ord(h),
            keys,
            prows,
            nulls_equal,
            emit_unmatched,
            left_is_build,
            build_width,
        ) == rows_for_order(
            tables,
            identity_ord((h - 1) as nat),
            keys,
            prows,
            nulls_equal,
            emit_unmatched,
            left_is_build,
            build_width,
        ) + probe_row_out(
            tables,
            keys[h - 1],
            prows[h - 1],
            nulls_equal,
            emit_unmatched,
            left_is_build,
            build_width,
        ),
{
    assert(identity_ord(h).drop_last() =~= identity_ord((h - 1) as nat));
    assert(identity_ord(h).last() == h - 1);
}

/// An empty table matches nothing.
pub proof fn lemma_empty_table_matches(t: ProbeTable, k: Seq<Cell>, nulls_equal: bool)
    requires
        t.keys@.len() == 0,
    ensures
        matches_in_table(chunks_view(t.keys@), chunks_view(t.rows@), k, nulls_equal).len() == 0,
{
    assert(chunks_view(t.keys@).len() == 0);
}

/// Joining against an empty build side: without unmatched-probe emission
/// the output is empty; with it, every processed probe row comes out once,
/// padded with nulls on the build side.
pub proof fn law_empty_build_side(
    tables: Seq<ProbeTable>,
    order: Seq<int>,
    keys: Seq<Seq<Cell>>,
    prows: Seq<Seq<Cell>>,
    nulls_equal: bool,
    emit_unmatched: bool,
    left_is_build: bool,
    build_width: nat,
)
    requires
        tables.len() > 0,
        forall|q: int| 0 <= q < tables.len() ==> (#[trigger] tables[q]).keys@.len() == 0,
        forall|t: int| 0 <= t < order.len() ==> 0 <= #[trigger] order[t] < keys.len(),
    ensures
        !emit_unmatched ==> rows_for_order(
            tables,
            order,
            keys,
            prows,
            nulls_equal,
            emit_unmatched,
            left_is_build,
            build_width,
        ).len() == 0,
        emit_unmatched ==> rows_for_order(
            tables,
            order,
            keys,
            prows,
            nulls_equal,
            emit_unmatched,
            left_is_build,
            build_width,
        ) == order.map_values(
            |j: int| combine_row(null_row(build_width), prows[j], left_is_build),
        ),
    decreases order.len(),
{
    if order.len() > 0 {
        law_empty_build_side(
            tables,
            order.drop_last(),
            keys,
            prows,
            nulls_equal,
            emit_unmatched,
            left_is_build,
            build_width,
        );
        let j = order.last();
        let k = keys[j];
        if !key_unmatchable(k, nulls_equal) {
            let p = partition_of(k, tables.len() as int);
            assert(0 <= p < tables.len()) by {
                crate::keys::lemma_key_hash_bounds(k);
                vstd::arithmetic::div_mod::lemma_mod_bound(
                    crate::keys::spec_key_hash(k),
                    tables.len() as int,
                );
            }
            lemma_empty_table_matches(tables[p], k, nulls_equal);
        }
        if emit_unmatched {
            assert(rows_for_order(
                tables,
                order,
                keys,
                prows,
                nulls_equal,
                emit_unmatched,
                left_is_build,
                build_width,
            ) =~= order.map_values(
                |j2: int| combine_row(null_row(build_width), prows[j2], left_is_build),
            )) by {
                assert(order.map_values(
                    |j2: int| combine_row(null_row(build_width), prows[j2], left_is_build),
                ).drop_last() =~= order.drop_last().map_values(
                    |j2: int| combine_row(null_row(build_width), prows[j2], left_is_build),
                ));
            }
        }
    } else {
        if emit_unmatched {
            assert(rows_for_order(
                tables,
                order,
                keys,
                prows,
                nulls_equal,
                emit_unmatched,
                left_is_build,
                build_width,
            ) =~= order.map_values(
                |j2: int| combine_row(null_row(build_width), prows[j2], left_is_build),
            ));
        }
    }
}

/// All-null probe keys with nulls unequal: without unmatched-probe emission
/// nothing comes out; with it, every processed row comes out once with null
/// build columns, whatever the tables hold.
pub proof fn law_all_null_keys(
    tables: Seq<ProbeTable>,
    order: Seq<int>,
    keys: Seq<Seq<Cell>>,
    prows: Seq<Seq<Cell>>,
    emit_unmatched: bool,
    left_is_build: bool,
    build_width: nat,
)
    requires
        forall|t: int|
            0 <= t < order.len() ==> 0 <= #[trigger] order[t] < keys.len() && key_is_null(
                keys[order[t]],
            ),
    ensures
        !emit_unmatched ==> rows_for_order(
            tables,
            order,
            keys,
            prows,
            false,
            emit_unmatched,
            left_is_build,
            build_width,
        ).len() == 0,
        emit_unmatched ==> rows_for_order(
            tables,
            order,
            keys,
            prows,
            false,
            emit_unmatched,
            left_is_build,
            build_width,
        ) == order.map_values(
            |j: int| combine_row(null_row(build_width), prows[j], left_is_build),
        ),
    decreases order.len(),
{
    if order.len() > 0 {
        law_all_null_keys(
            tables,
            order.drop_last(),
            keys,
            prows,
            emit_unmatched,
            left_is_build,
            build_width,
        );
        assert(key_unmatchable(keys[order.last()], false));
        if emit_unmatched {
            assert(rows_for_order(
                tables,
                order,
                keys,
                prows,
                false,
                emit_unmatched,
                left_is_build,
                build_width,
            ) =~= order.map_values(
                |j2: int| combine_row(null_row(build_width), prows[j2], left_is_build),
            )) by {
                assert(order.map_values(
                    |j2: int| combine_row(null_row(build_width), prows[j2], left_is_build),
                ).drop_last() =~= order.drop_last().map_values(
                    |j2: int| combine_row(null_row(build_width), prows[j2], left_is_build),
                ));
            }
        }
    } else {
        if emit_unmatched {
            assert(rows_for_order(
                tables,
                order,
                keys,
                prows,
                false,
                emit_unmatched,
                left_is_build,
                build_width,
            ) =~= order.map_values(
                |j2: int| combine_row(null_row(build_width), prows[j2], left_is_build),
            ));
        }
    }
}

/// The number of keys in a list that match one probe key.
pub open spec fn count_matching(keys: Seq<Seq<Cell>>, k: Seq<Cell>, nulls_equal: bool) -> int
    decreases keys.len(),
{
    if keys.len() == 0 {
        0
    } else {
        count_matching(keys.drop_last(), k, nulls_equal) + (if keys_match(
            keys.last(),
            k,
            nulls_equal,
        ) {
            1int
        } else {
            0int
        })
    }
}

/// The number of matching key pairs between two flat key lists, counted
/// from the first list's side.
pub open spec fn count_pairs(a: Seq<Seq<Cell>>, b: Seq<Seq<Cell>>, nulls_equal: bool) -> int
    decreases a.len(),
{
    if a.len() == 0 {
        0
    } else {
        count_pairs(a.drop_last(), b, nulls_equal) + count_matching(b, a.last(), nulls_equal)
    }
}

/// Matching is symmetric in its two keys.
pub proof fn lemma_keys_match_symmetric(x: Seq<Cell>, y: Seq<Cell>, nulls_equal: bool)
    ensures
        keys_match(x, y, nulls_equal) == keys_match(y, x, nulls_equal),
{
}

/// Appending one key to the second list adds that key's matches against the
/// first list.
pub proof fn lemma_count_pairs_push(
    a: Seq<Seq<Cell>>,
    b: Seq<Seq<Cell>>,
    y: Seq<Cell>,
    nulls_equal: bool,
)
    ensures
        count_pairs(a, b.push(y), nulls_equal) == count_pairs(a, b, nulls_equal) + count_matching(
            a,
            y,
            nulls_equal,
        ),
    decreases a.len(),
{
    if a.len() == 0 {
    } else {
        lemma_count_pairs_push(a.drop_last(), b, y, nulls_equal);
        assert(b.push(y).drop_last() =~= b);
        assert(b.push(y).last() == y);
        assert(count_matching(b.push(y), a.last(), nulls_equal) == count_matching(
            b,
            a.last(),
            nulls_equal,
        ) + (if keys_match(y, a.last(), nulls_equal) {
            1int
        } else {
            0int
        }));
        lemma_keys_match_symmetric(y, a.last(), nulls_equal);
        assert(count_matching(a, y, nulls_equal) == count_matching(a.drop_last(), y, nulls_equal)
            + (if keys_match(a.last(), y, nulls_equal) {
            1int
        } else {
            0int
        }));
    }
}

/// Join symmetry at the cardinality level: the number of matching key pairs
/// does not depend on which side is counted first, so an inner join and its
/// swap have equally many rows.
pub proof fn law_inner_join_symmetric(a: Seq<Seq<Cell>>, b: Seq<Seq<Cell>>, nulls_equal: bool)
    ensures
        count_pairs(a, b, nulls_equal) == count_pairs(b, a, nulls_equal),
    decreases b.len(),
{
    if b.len() == 0 {
        assert(b =~= Seq::<Seq<Cell>>::empty());
        lemma_count_pairs_empty(a, nulls_equal);
        assert(count_pairs(b, a, nulls_equal) == 0);
    } else {
        let b2 = b.drop_last();
        let y = b.last();
        law_inner_join_symmetric(a, b2, nulls_equal);
        lemma_count_pairs_push(a, b2, y, nulls_equal);
        assert(b2.push(y) =~= b);
        assert(count_pairs(a, b, nulls_equal) == count_pairs(a, b2, nulls_equal)
            + count_matching(a, y, nulls_equal));
        assert(count_pairs(b, a, nulls_equal) == count_pairs(b2, a, nulls_equal)
            + count_matching(a, y, nulls_equal));
    }
}

/// Against an empty second list nothing matches.
pub proof fn lemma_count_pairs_empty(a: Seq<Seq<Cell>>, nulls_equal: bool)
    ensures
        count_pairs(a, Seq::<Seq<Cell>>::empty(), nulls_equal) == 0,
    decreases a.len(),
{
    if a.len() > 0 {
        lemma_count_pairs_empty(a.drop_last(), nulls_equal);
    }
}

/// Partition completeness for one morsel: for a probe key of partition `p`,
/// matching only the rows the partitioner assigned to `p` finds exactly the
/// matches of the whole morsel, in the same order, because every matching
/// row lies in `p`.
pub proof fn law_partition_slice_complete(
    keys: Seq<Seq<Cell>>,
    vals: Seq<Seq<Cell>>,
    p: int,
    n: int,
    include_nulls: bool,
    nulls_equal: bool,
    k: Seq<Cell>,
)
    requires
        keys.len() == vals.len(),
        n > 0,
        !key_unmatchable(k, nulls_equal),
        partition_of(k, n) == p,
    ensures
        matches_in_chunk(
            crate::keys::partition_idxs(keys, p, n, include_nulls, nulls_equal).map_values(
                |j: int| keys[j],
            ),
            crate::keys::partition_idxs(keys, p, n, include_nulls, nulls_equal).map_values(
                |j: int| vals[j],
            ),
            k,
            nulls_equal,
        ) == matches_in_chunk(keys, vals, k, nulls_equal),
    decreases keys.len(),
{
    crate::keys::lemma_partition_idxs_in_range(keys, p, n, include_nulls, nulls_equal);
    let pis = crate::keys::partition_idxs(keys, p, n, include_nulls, nulls_equal);
    let ck = pis.map_values(|j: int| keys[j]);
    let cv = pis.map_values(|j: int| vals[j]);
    if keys.len() == 0 {
        assert(pis.len() == 0);
        assert(ck =~= Seq::<Seq<Cell>>::empty());
        assert(cv =~= Seq::<Seq<Cell>>::empty());
    } else {
        let keys2 = keys.drop_last();
        let vals2 = vals.drop_last();
        let x = keys.last();
        let v = vals.last();
        law_partition_slice_complete(keys2, vals2, p, n, include_nulls, nulls_equal, k);
        crate::keys::lemma_partition_idxs_in_range(keys2, p, n, include_nulls, nulls_equal);
        let pis2 = crate::keys::partition_idxs(keys2, p, n, include_nulls, nulls_equal);
        let ck2 = pis2.map_values(|j: int| keys2[j]);
        let cv2 = pis2.map_values(|j: int| vals2[j]);
        let taken = (include_nulls || !key_unmatchable(x, nulls_equal)) && partition_of(x, n)
            == p;
        if taken {
            assert(pis =~= pis2.push(keys.len() - 1));
            assert(ck =~= ck2.push(x)) by {
                assert forall|t: int| 0 <= t < pis.len() implies ck[t] == ck2.push(x)[t] by {
                    if t < pis2.len() {
                        assert(pis[t] == pis2[t]);
                        assert(keys[pis2[t]] == keys2[pis2[t]]);
                    } else {
                        assert(pis[t] == keys.len() - 1);
                    }
                }
            }
            assert(cv =~= cv2.push(v)) by {
                assert forall|t: int| 0 <= t < pis.len() implies cv[t] == cv2.push(v)[t] by {
                    if t < pis2.len() {
                        assert(pis[t] == pis2[t]);
                        assert(vals[pis2[t]] == vals2[pis2[t]]);
                    } else {
                        assert(pis[t] == keys.len() - 1);
                    }
                }
            }
            assert(ck.drop_last() =~= ck2);
            assert(cv.drop_last() =~= cv2);
            assert(ck.last() == x);
            assert(cv.last() == v);
            assert(matches_in_chunk(ck, cv, k, nulls_equal) == matches_in_chunk(
                ck2,
                cv2,
                k,
                nulls_equal,
            ) + (if keys_match(x, k, nulls_equal) {
                seq![v]
            } else {
                Seq::<Seq<Cell>>::empty()
            }));
        } else {
            assert(pis =~= pis2);
            assert(ck =~= ck2) by {
                assert forall|t: int| 0 <= t < pis.len() implies ck[t] == ck2[t] by {
                    assert(pis[t] == pis2[t]);
                    assert(keys[pis2[t]] == keys2[pis2[t]]);
                }
            }
            assert(cv =~= cv2) by {
                assert forall|t: int| 0 <= t < pis.len() implies cv[t] == cv2[t] by {
                    assert(pis[t] == pis2[t]);
                    assert(vals[pis2[t]] == vals2[pis2[t]]);
                }
            }
            if keys_match(x, k, nulls_equal) {
                assert(x == k);
                assert(!key_unmatchable(x, nulls_equal));
                assert(partition_of(x, n) == p);
                assert(false);
            }
        }
    }
}

/// The build-side matches of a probe key over a whole morsel list: each
/// morsel's matching payload rows, in ingestion order.
pub open spec fn build_side_matches(
    ms: Seq<crate::morsel::Morsel>,
    key_idxs: Seq<usize>,
    sel: Seq<Option<Seq<u8>>>,
    k: Seq<Cell>,
    nulls_equal: bool,
) -> Seq<Seq<Cell>>
    decreases ms.len(),
{
    if ms.len() == 0 {
        Seq::empty()
    } else {
        build_side_matches(ms.drop_last(), key_idxs, sel, k, nulls_equal) + matches_in_chunk(
            crate::keys::keys_of_frame(crate::morsel::morsel_rows(ms.last()), key_idxs),
            crate::driver::payload_rows(ms.last(), sel),
            k,
            nulls_equal,
        )
    }
}

/// The probe theorem: against the tables the build phase produced, a probe
/// key finds exactly the matches it would find against the whole build
/// side, in ingestion order — partitioning loses nothing and adds nothing.
#[verifier::rlimit(100)]
pub proof fn law_probe_against_built_tables(
    ms: Seq<crate::morsel::Morsel>,
    key_idxs: Seq<usize>,
    sel: Seq<Option<Seq<u8>>>,
    kcs: Seq<Seq<Seq<Cell>>>,
    rcs: Seq<Seq<Seq<Cell>>>,
    p: int,
    n: int,
    track_unmatchable: bool,
    nulls_equal: bool,
    k: Seq<Cell>,
)
    requires
        n > 0,
        !key_unmatchable(k, nulls_equal),
        partition_of(k, n) == p,
        kcs == crate::building::kept_morsels(
            ms,
            key_idxs,
            p,
            n,
            track_unmatchable,
            nulls_equal,
        ).map_values(
            |j: int| crate::building::chunk_keys_spec(
                crate::morsel::morsel_rows(ms[j]),
                key_idxs,
                p,
                n,
                track_unmatchable,
                nulls_equal,
            ),
        ),
        rcs == crate::building::kept_morsels(
            ms,
            key_idxs,
            p,
            n,
            track_unmatchable,
            nulls_equal,
        ).map_values(
            |j: int| crate::building::chunk_rows_spec(
                crate::morsel::morsel_rows(ms[j]),
                key_idxs,
                sel,
                p,
                n,
                track_unmatchable,
                nulls_equal,
            ),
        ),
    ensures
        matches_in_table(kcs, rcs, k, nulls_equal) == build_side_matches(
            ms,
            key_idxs,
            sel,
            k,
            nulls_equal,
        ),
    decreases ms.len(),
{
    let km = crate::building::kept_morsels(ms, key_idxs, p, n, track_unmatchable, nulls_equal);
    let fk = |j: int|
        crate::building::chunk_keys_spec(
            crate::morsel::morsel_rows(ms[j]),
            key_idxs,
            p,
            n,
            track_unmatchable,
            nulls_equal,
        );
    let fr = |j: int|
        crate::building::chunk_rows_spec(
            crate::morsel::morsel_rows(ms[j]),
            key_idxs,
            sel,
            p,
            n,
            track_unmatchable,
            nulls_equal,
        );
    if ms.len() == 0 {
        assert(km.len() == 0);
        assert(kcs =~= Seq::<Seq<Seq<Cell>>>::empty());
        assert(rcs =~= Seq::<Seq<Seq<Cell>>>::empty());
    } else {
        let ms2 = ms.drop_last();
        let km2 = crate::building::kept_morsels(
            ms2,
            key_idxs,
            p,
            n,
            track_unmatchable,
            nulls_equal,
        );
        let fk2 = |j: int|
            crate::building::chunk_keys_spec(
                crate::morsel::morsel_rows(ms2[j]),
                key_idxs,
                p,
                n,
                track_unmatchable,
                nulls_equal,
            );
        let fr2 = |j: int|
            crate::building::chunk_rows_spec(
                crate::morsel::morsel_rows(ms2[j]),
                key_idxs,
                sel,
                p,
                n,
                track_unmatchable,
                nulls_equal,
            );
        law_probe_against_built_tables(
            ms2,
            key_idxs,
            sel,
            km2.map_values(fk2),
            km2.map_values(fr2),
            p,
            n,
            track_unmatchable,
            nulls_equal,
            k,
        );
        crate::building::lemma_kept_idxs_in_range_morsels(
            ms,
            key_idxs,
            p,
            n,
            track_unmatchable,
            nulls_equal,
        );
        crate::building::lemma_kept_idxs_in_range_morsels(
            ms2,
            key_idxs,
            p,
            n,
            track_unmatchable,
            nulls_equal,
        );
        let last_rows = crate::morsel::morsel_rows(ms.last());
        let last_keys = crate::keys::keys_of_frame(last_rows, key_idxs);
        let last_vals = crate::driver::payload_rows(ms.last(), sel);
        assert(last_keys.len() == last_vals.len());
        law_partition_slice_complete(
            last_keys,
            last_vals,
            p,
            n,
            track_unmatchable,
            nulls_equal,
            k,
        );
        assert(fk(ms.len() - 1) =~= crate::keys::partition_idxs(
            last_keys,
            p,
            n,
            track_unmatchable,
            nulls_equal,
        ).map_values(|j: int| last_keys[j]));
        let frv = crate::building::chunk_rows_spec(
            last_rows,
            key_idxs,
            sel,
            p,
            n,
            track_unmatchable,
            nulls_equal,
        );
        assert(fr(ms.len() - 1) == frv);
        assert(frv =~= crate::keys::partition_idxs(
            last_keys,
            p,
            n,
            track_unmatchable,
            nulls_equal,
        ).map_values(|j: int| last_vals[j])) by {
            let pis = crate::keys::partition_idxs(last_keys, p, n, track_unmatchable, nulls_equal);
            crate::keys::lemma_partition_idxs_in_range(
                last_keys,
                p,
                n,
                track_unmatchable,
                nulls_equal,
            );
            assert forall|t: int| 0 <= t < pis.len() implies #[trigger] frv[t] == pis.map_values(
                |j: int| last_vals[j],
            )[t] by {
                assert(frv[t] == crate::selector::select_row(last_rows[pis[t]], sel));
                assert(last_vals[pis[t]] == crate::selector::select_row(last_rows[pis[t]], sel));
            }
        }
        assert(matches_in_chunk(fk(ms.len() - 1), fr(ms.len() - 1), k, nulls_equal)
            == matches_in_chunk(last_keys, last_vals, k, nulls_equal));
        let kept_last = fk(ms.len() - 1).len() > 0;
        if crate::building::chunk_keys_spec(
            last_rows,
            key_idxs,
            p,
            n,
            track_unmatchable,
            nulls_equal,
        ).len() > 0 {
            assert(km =~= km2.push(ms.len() - 1));
            assert(kcs =~= km2.map_values(fk2).push(fk(ms.len() - 1))) by {
                assert forall|t: int| 0 <= t < km.len() implies km.map_values(fk)[t]
                    == km2.map_values(fk2).push(fk(ms.len() - 1))[t] by {
                    if t < km2.len() {
                        assert(km[t] == km2[t]);
                        assert(ms2[km2[t]] == ms[km2[t]]);
                    } else {
                        assert(km[t] == ms.len() - 1);
                    }
                }
            }
            assert(rcs =~= km2.map_values(fr2).push(fr(ms.len() - 1))) by {
                assert forall|t: int| 0 <= t < km.len() implies km.map_values(fr)[t]
                    == km2.map_values(fr2).push(fr(ms.len() - 1))[t] by {
                    if t < km2.len() {
                        assert(km[t] == km2[t]);
                        assert(ms2[km2[t]] == ms[km2[t]]);
                    } else {
                        assert(km[t] == ms.len() - 1);
                    }
                }
            }
            assert(kcs.drop_last() =~= km2.map_values(fk2));
            assert(rcs.drop_last() =~= km2.map_values(fr2));
            assert(matches_in_table(kcs, rcs, k, nulls_equal) == matches_in_table(
                km2.map_values(fk2),
                km2.map_values(fr2),
                k,
                nulls_equal,
            ) + matches_in_chunk(fk(ms.len() - 1), fr(ms.len() - 1), k, nulls_equal));
        } else {
            assert(km =~= km2);
            assert(kcs =~= km2.map_values(fk2)) by {
                assert forall|t: int| 0 <= t < km.len() implies km.map_values(fk)[t]
                    == km2.map_values(fk2)[t] by {
                    assert(km[t] == km2[t]);
                    assert(ms2[km2[t]] == ms[km2[t]]);
                }
            }
            assert(rcs =~= km2.map_values(fr2)) by {
                assert forall|t: int| 0 <= t < km.len() implies km.map_values(fr)[t]
                    == km2.map_values(fr2)[t] by {
                    assert(km[t] == km2[t]);
                    assert(ms2[km2[t]] == ms[km2[t]]);
                }
            }
            assert(fk(ms.len() - 1).len() == 0);
            assert(matches_in_chunk(last_keys, last_vals, k, nulls_equal) =~= Seq::<
                Seq<Cell>,
            >::empty()) by {
                assert(matches_in_chunk(fk(ms.len() - 1), fr(ms.len() - 1), k, nulls_equal).len()
                    == 0);
            }
        }
    }
}

/// A chunk's match list has one entry per matching key.
pub proof fn lemma_matches_len_is_count(
    keys: Seq<Seq<Cell>>,
    vals: Seq<Seq<Cell>>,
    k: Seq<Cell>,
    nulls_equal: bool,
)
    requires
        keys.len() == vals.len(),
    ensures
        matches_in_chunk(keys, vals, k, nulls_equal).len() == count_matching(keys, k, nulls_equal),
    decreases keys.len(),
{
    if keys.len() > 0 {
        lemma_matches_len_is_count(keys.drop_last(), vals.drop_last(), k, nulls_equal);
    }
}

/// Counting matches distributes over concatenation of key lists.
pub proof fn lemma_count_matching_add(
    a: Seq<Seq<Cell>>,
    b: Seq<Seq<Cell>>,
    k: Seq<Cell>,
    nulls_equal: bool,
)
    ensures
        count_matching(a + b, k, nulls_equal) == count_matching(a, k, nulls_equal)
            + count_matching(b, k, nulls_equal),
    decreases b.len(),
{
    if b.len() == 0 {
        assert(a + b =~= a);
    } else {
        lemma_count_matching_add(a, b.drop_last(), k, nulls_equal);
        assert((a + b).drop_last() =~= a + b.drop_last());
        assert((a + b).last() == b.last());
    }
}

/// No key matches an unmatchable probe key.
pub proof fn lemma_count_matching_unmatchable(
    keys: Seq<Seq<Cell>>,
    k: Seq<Cell>,
    nulls_equal: bool,
)
    requires
        key_unmatchable(k, nulls_equal),
    ensures
        count_matching(keys, k, nulls_equal) == 0,
    decreases keys.len(),
{
    if keys.len() > 0 {
        lemma_count_matching_unmatchable(keys.drop_last(), k, nulls_equal);
    }
}

/// The whole build side's match list for one key has one entry per
/// matching key of the flattened build input.
pub proof fn lemma_build_side_matches_len(
    ms: Seq<crate::morsel::Morsel>,
    key_idxs: Seq<usize>,
    sel: Seq<Option<Seq<u8>>>,
    k: Seq<Cell>,
    nulls_equal: bool,
)
    ensures
        build_side_matches(ms, key_idxs, sel, k, nulls_equal).len() == count_matching(
            crate::sample::all_keys(ms, key_idxs),
            k,
            nulls_equal,
        ),
    decreases ms.len(),
{
    if ms.len() > 0 {
        lemma_build_side_matches_len(ms.drop_last(), key_idxs, sel, k, nulls_equal);
        let last_keys = crate::keys::keys_of_frame(
            crate::morsel::morsel_rows(ms.last()),
            key_idxs,
        );
        let last_vals = crate::driver::payload_rows(ms.last(), sel);
        assert(last_keys.len() == last_vals.len());
        lemma_matches_len_is_count(last_keys, last_vals, k, nulls_equal);
        lemma_count_matching_add(
            crate::sample::all_keys(ms.drop_last(), key_idxs),
            last_keys,
            k,
            nulls_equal,
        );
    }
}

/// Within one partition the listed row positions are strictly increasing,
/// so none repeats.
pub proof fn lemma_partition_idxs_increasing(
    keys: Seq<Seq<Cell>>,
    p: int,
    n: int,
    include_nulls: bool,
    nulls_equal: bool,
)
    ensures
        ({
            let pis = crate::keys::partition_idxs(keys, p, n, include_nulls, nulls_equal);
            forall|a: int, b: int| 0 <= a < b < pis.len() ==> pis[a] < pis[b]
        }),
    decreases keys.len(),
{
    if keys.len() > 0 {
        lemma_partition_idxs_increasing(keys.drop_last(), p, n, include_nulls, nulls_equal);
        crate::keys::lemma_partition_idxs_in_range(
            keys.drop_last(),
            p,
            n,
            include_nulls,
            nulls_equal,
        );
        let pis = crate::keys::partition_idxs(keys, p, n, include_nulls, nulls_equal);
        let q = crate::keys::partition_idxs(keys.drop_last(), p, n, include_nulls, nulls_equal);
        assert forall|a: int, b: int| 0 <= a < b < pis.len() implies pis[a] < pis[b] by {
            if b < q.len() {
                assert(pis[a] == q[a]);
                assert(pis[b] == q[b]);
            } else {
                assert(pis[b] == keys.len() - 1);
                assert(pis[a] == q[a]);
            }
        }
    }
}

/// Every participating row position of a partition is listed for it.
pub proof fn lemma_partition_idxs_complete(
    keys: Seq<Seq<Cell>>,
    p: int,
    n: int,
    include_nulls: bool,
    nulls_equal: bool,
    j: int,
)
    requires
        0 <= j < keys.len(),
        include_nulls || !key_unmatchable(keys[j], nulls_equal),
        partition_of(keys[j], n) == p,
    ensures
        crate::keys::partition_idxs(keys, p, n, include_nulls, nulls_equal).contains(j),
    decreases keys.len(),
{
    let pis = crate::keys::partition_idxs(keys, p, n, include_nulls, nulls_equal);
    let q = crate::keys::partition_idxs(keys.drop_last(), p, n, include_nulls, nulls_equal);
    if j == keys.len() - 1 {
        assert(pis[pis.len() - 1] == j);
    } else {
        assert(keys.drop_last()[j] == keys[j]);
        lemma_partition_idxs_complete(
            keys.drop_last(),
            p,
            n,
            include_nulls,
            nulls_equal,
            j,
        );
        let t = choose|t: int| 0 <= t < q.len() && q[t] == j;
        assert(pis[t] == j);
    }
}

/// The partition-major processing order covers exactly the participating
/// probe rows, each exactly once: every listed position participates, no
/// position repeats, and every participating position is listed.
pub proof fn law_partition_major_covers_each_row_once(
    keys: Seq<Seq<Cell>>,
    p: int,
    n: int,
    include_nulls: bool,
    nulls_equal: bool,
)
    requires
        0 <= p <= n,
        n >= 1,
    ensures
        ({
            let ord = crate::probe::partition_major_upto(keys, p, n, include_nulls, nulls_equal);
            &&& forall|t: int|
                0 <= t < ord.len() ==> 0 <= #[trigger] ord[t] < keys.len() && (include_nulls
                    || !key_unmatchable(keys[ord[t]], nulls_equal)) && partition_of(
                    keys[ord[t]],
                    n,
                ) < p
            &&& forall|a: int, b: int| 0 <= a < b < ord.len() ==> ord[a] != ord[b]
            &&& forall|j: int|
                0 <= j < keys.len() && (include_nulls || !key_unmatchable(
                    keys[j],
                    nulls_equal,
                )) && partition_of(keys[j], n) < p ==> #[trigger] ord.contains(j)
        }),
    decreases p,
{
    if p > 0 {
        law_partition_major_covers_each_row_once(keys, p - 1, n, include_nulls, nulls_equal);
        let ord = crate::probe::partition_major_upto(keys, p, n, include_nulls, nulls_equal);
        let prev = crate::probe::partition_major_upto(keys, p - 1, n, include_nulls, nulls_equal);
        let seg = crate::keys::partition_idxs(keys, p - 1, n, include_nulls, nulls_equal);
        crate::keys::lemma_partition_idxs_members(keys, p - 1, n, include_nulls, nulls_equal);
        lemma_partition_idxs_increasing(keys, p - 1, n, include_nulls, nulls_equal);
        assert forall|t: int| 0 <= t < ord.len() implies 0 <= #[trigger] ord[t] < keys.len() && (
        include_nulls || !key_unmatchable(keys[ord[t]], nulls_equal)) && partition_of(
            keys[ord[t]],
            n,
        ) < p by {
            if t < prev.len() {
                assert(ord[t] == prev[t]);
            } else {
                assert(ord[t] == seg[t - prev.len()]);
            }
        }
        assert forall|a: int, b: int| 0 <= a < b < ord.len() implies ord[a] != ord[b] by {
            if b < prev.len() {
                assert(ord[a] == prev[a]);
                assert(ord[b] == prev[b]);
            } else if a >= prev.len() {
                assert(ord[a] == seg[a - prev.len()]);
                assert(ord[b] == seg[b - prev.len()]);
                assert(seg[a - prev.len()] < seg[b - prev.len()]);
            } else {
                assert(ord[a] == prev[a]);
                assert(ord[b] == seg[b - prev.len()]);
                assert(partition_of(keys[prev[a]], n) < p - 1);
                assert(partition_of(keys[seg[b - prev.len()]], n) == p - 1);
            }
        }
        assert forall|j: int|
            0 <= j < keys.len() && (include_nulls || !key_unmatchable(keys[j], nulls_equal))
                && partition_of(keys[j], n) < p implies #[trigger] ord.contains(j) by {
            if partition_of(keys[j], n) < p - 1 {
                assert(prev.contains(j));
                let t = choose|t: int| 0 <= t < prev.len() && prev[t] == j;
                assert(ord[t] == j);
            } else {
                lemma_partition_idxs_complete(keys, p - 1, n, include_nulls, nulls_equal, j);
                let t = choose|t: int| 0 <= t < seg.len() && seg[t] == j;
                assert(ord[prev.len() + t] == j);
            }
        }
    }
}

/// The full partition-major order processes every participating probe row
/// exactly once: with it, the per-order cardinality laws speak about the
/// whole probe stream.
pub proof fn law_partition_major_covers_all(
    keys: Seq<Seq<Cell>>,
    n: int,
    include_nulls: bool,
    nulls_equal: bool,
)
    requires
        n >= 1,
    ensures
        ({
            let ord = crate::probe::partition_major_upto(keys, n, n, include_nulls, nulls_equal);
            &&& forall|t: int|
                0 <= t < ord.len() ==> 0 <= #[trigger] ord[t] < keys.len() && (include_nulls
                    || !key_unmatchable(keys[ord[t]], nulls_equal))
            &&& forall|a: int, b: int| 0 <= a < b < ord.len() ==> ord[a] != ord[b]
            &&& forall|j: int|
                0 <= j < keys.len() && (include_nulls || !key_unmatchable(keys[j], nulls_equal))
                    ==> #[trigger] ord.contains(j)
        }),
{
    law_partition_major_covers_each_row_once(keys, n, n, include_nulls, nulls_equal);
    let ord = crate::probe::partition_major_upto(keys, n, n, include_nulls, nulls_equal);
    assert forall|j: int|
        0 <= j < keys.len() && (include_nulls || !key_unmatchable(keys[j], nulls_equal)) implies
        #[trigger] ord.contains(j) by {
        assert(partition_of(keys[j], n) < n) by {
            crate::keys::lemma_key_hash_bounds(keys[j]);
            vstd::arithmetic::div_mod::lemma_mod_bound(crate::keys::spec_key_hash(keys[j]), n);
        }
    }
}

} // verus!
