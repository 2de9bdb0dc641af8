//! Order-preserving emission of unmatched build rows.
//!
//! When the build side's order must be preserved, the unmatched rows of all
//! partitions are brought into one list sorted by origin sequence number,
//! ties broken by the row's position inside its chunk, before they are
//! streamed out.

use vstd::prelude::*;

use crate::emit::all_unmatched;
use crate::table::unmatched_view;
use crate::table::ProbeTable;
use crate::table::UnmatchedRow;

verus! {

/// The emission order of two unmatched rows: by origin sequence number,
/// ties by position inside the chunk.
pub open spec fn um_le(a: UnmatchedRow, b: UnmatchedRow) -> bool {
    a.seq < b.seq || (a.seq == b.seq && a.idx <= b.idx)
}

/// Whether an unmatched-row list is sorted in emission order.
pub open spec fn um_sorted(v: Seq<UnmatchedRow>) -> bool {
    forall|a: int, b: int| 0 <= a < b < v.len() ==> um_le(#[trigger] v[a], #[trigger] v[b])
}

/// Sorts unmatched rows into emission order; the rows themselves are kept.
pub fn sort_unmatched(v: Vec<UnmatchedRow>) -> (r: Vec<UnmatchedRow>)
    ensures
        r@.len() == v@.len(),
        um_sorted(r@),
        r@.to_multiset() == v@.to_multiset(),
        forall|t: int| 0 <= t < r@.len() ==> v@.contains(#[trigger] r@[t]),
{
    broadcast use vstd::seq_lib::group_to_multiset_ensures;

    let ghost orig = v@;
    let mut src = v;
    let mut out: Vec<UnmatchedRow> = Vec::new();
    while src.len() > 0
        invariant
            out@.len() + src@.len() == orig.len(),
            um_sorted(out@),
            forall|t: int| 0 <= t < out@.len() ==> orig.contains(#[trigger] out@[t]),
            forall|t: int| 0 <= t < src@.len() ==> orig.contains(#[trigger] src@[t]),
            forall|a: int, b: int|
                0 <= a < out@.len() && 0 <= b < src@.len() ==> um_le(
                    #[trigger] out@[a],
                    #[trigger] src@[b],
                ),
            out@.to_multiset().add(src@.to_multiset()) == orig.to_multiset(),
        decreases src.len(),
    {
        let mut min_i: usize = 0;
        let mut j: usize = 1;
        while j < src.len()
            invariant
                0 <= min_i < src@.len(),
                min_i < j <= src@.len() || (j <= src@.len() && min_i == 0),
                forall|t: int| 0 <= t < j ==> um_le(src@[min_i as int], #[trigger] src@[t]),
            decreases src.len() - j,
        {
            let better = src[j].seq < src[min_i].seq || (src[j].seq == src[min_i].seq
                && src[j].idx < src[min_i].idx);
            if better {
                min_i = j;
            }
            j += 1;
        }
        let ghost src_pre = src@;
        let x = src.remove(min_i);
        assert(x == src_pre[min_i as int]);
        let ghost out_pre = out@;
        out.push(x);
        proof {
            out_pre.to_multiset_ensures();
            src_pre.to_multiset_ensures();
            assert(out@ == out_pre.push(x));
            assert(src@ == src_pre.remove(min_i as int));
            assert(out_pre.push(x).to_multiset() == out_pre.to_multiset().insert(x));
            assert(out@.to_multiset() == out_pre.to_multiset().insert(x));
            assert(src_pre.remove(min_i as int).to_multiset() == src_pre.to_multiset().remove(
                src_pre[min_i as int],
            ));
            assert(src@.to_multiset() == src_pre.to_multiset().remove(x));
            assert(src_pre.contains(x)) by {
                assert(src_pre[min_i as int] == x);
            }
            assert(src_pre.to_multiset().count(x) > 0);
            assert(orig.contains(x));
            assert forall|t: int| 0 <= t < src@.len() implies orig.contains(
                #[trigger] src@[t],
            ) by {
                if t < min_i {
                    assert(src@[t] == src_pre[t]);
                } else {
                    assert(src@[t] == src_pre[t + 1]);
                }
            }
            assert forall|t: int| 0 <= t < out@.len() implies orig.contains(
                #[trigger] out@[t],
            ) by {
                if t < out_pre.len() {
                    assert(out@[t] == out_pre[t]);
                } else {
                    assert(out@[t] == x);
                }
            }
            assert(out@.to_multiset().add(src@.to_multiset()) =~= orig.to_multiset());
            assert forall|a: int, b: int|
                0 <= a < out@.len() && 0 <= b < src@.len() implies um_le(
                #[trigger] out@[a],
                #[trigger] src@[b],
            ) by {
                if b < min_i {
                    assert(src@[b] == src_pre[b]);
                } else {
                    assert(src@[b] == src_pre[b + 1]);
                }
                if a < out_pre.len() {
                    assert(out@[a] == out_pre[a]);
                } else {
                    assert(out@[a] == x);
                }
            }
            assert forall|a: int, b: int| 0 <= a < b < out@.len() implies um_le(
                #[trigger] out@[a],
                #[trigger] out@[b],
            ) by {
                if b < out_pre.len() {
                    assert(out@[a] == out_pre[a]);
                    assert(out@[b] == out_pre[b]);
                } else {
                    assert(out@[b] == x);
                    assert(x == src_pre[min_i as int]);
                    assert(out@[a] == out_pre[a]);
                    assert(um_le(out_pre[a], src_pre[min_i as int]));
                }
            }
        }
    }
    proof {
        assert(src@.to_multiset().len() == 0);
        assert(out@.to_multiset() =~= orig.to_multiset());
    }
    out
}

/// Gathers the unmatched rows of every partition and sorts them into
/// emission order; the result holds the same qualified rows as the
/// partition-order scan.
pub fn ordered_unmatched(tables: &Vec<ProbeTable>, build_width: usize) -> (r: Vec<UnmatchedRow>)
    requires
        forall|q: int| 0 <= q < tables@.len() ==> (#[trigger] tables@[q]).wf(),
        forall|q: int|
            0 <= q < tables@.len() ==> (#[trigger] tables@[q]).names@.len() == build_width,
    ensures
        um_sorted(r@),
        unmatched_view(r@).to_multiset() == all_unmatched(tables@).to_multiset(),
        r@.len() == all_unmatched(tables@).len(),
        forall|t: int| 0 <= t < r@.len() ==> (#[trigger] r@[t]).row@.len() == build_width,
{
    let mut acc: Vec<UnmatchedRow> = Vec::new();
    let mut p: usize = 0;
    proof {
        assert(tables@.take(0) =~= Seq::<ProbeTable>::empty());
        assert(unmatched_view(acc@) =~= all_unmatched(tables@.take(0)));
    }
    while p < tables.len()
        invariant
            0 <= p <= tables@.len(),
            forall|q: int| 0 <= q < tables@.len() ==> (#[trigger] tables@[q]).wf(),
            forall|q: int|
                0 <= q < tables@.len() ==> (#[trigger] tables@[q]).names@.len() == build_width,
            unmatched_view(acc@) == all_unmatched(tables@.take(p as int)),
            forall|t: int| 0 <= t < acc@.len() ==> (#[trigger] acc@[t]).row@.len() == build_width,
        decreases tables.len() - p,
    {
        let um = tables[p].unmatched_rows();
        let ghost umv = unmatched_view(um@);
        let ghost acc_pre = unmatched_view(acc@);
        let ghost uml = um@;
        let mut um = um;
        let ghost mut t: int = 0;
        while um.len() > 0
            invariant
                0 <= t <= uml.len(),
                um@ == uml.skip(t),
                unmatched_view(acc@) == acc_pre + unmatched_view(uml.take(t)),
                forall|x2: int|
                    0 <= x2 < uml.len() ==> (#[trigger] uml[x2]).row@.len() == build_width,
                forall|x2: int|
                    0 <= x2 < acc@.len() ==> (#[trigger] acc@[x2]).row@.len() == build_width,
            decreases um.len(),
        {
            assert(t < uml.len()) by {
                assert(uml.skip(t).len() > 0);
            }
            let x = um.remove(0);
            assert(x == uml[t]);
            assert(um@ =~= uml.skip(t + 1));
            let ghost acc_snap = acc@;
            acc.push(x);
            proof {
                assert(acc@ == acc_snap.push(x));
                crate::table::lemma_unmatched_view_push(acc_snap, x);
                assert(uml.take(t + 1).drop_last() =~= uml.take(t));
                assert(unmatched_view(uml.take(t + 1)) =~= unmatched_view(uml.take(t)).push(
                    (x.seq, x.idx as int, x.row@),
                )) by {
                    crate::table::lemma_unmatched_view_push(uml.take(t), x);
                    assert(uml.take(t + 1) =~= uml.take(t).push(x));
                }
                assert(unmatched_view(acc@) =~= acc_pre + unmatched_view(uml.take(t + 1)));
                t = t + 1;
            }
        }
        proof {
            assert(uml.skip(t).len() == 0);
            assert(uml.take(t) =~= uml);
            assert(unmatched_view(uml) == umv);
            assert(tables@.take(p + 1).drop_last() =~= tables@.take(p as int));
            assert(tables@.take(p + 1).last() == tables@[p as int]);
            assert(unmatched_view(acc@) =~= all_unmatched(tables@.take(p + 1)));
        }
        p += 1;
    }
    proof {
        assert(tables@.take(tables@.len() as int) =~= tables@);
    }
    let ghost acc_final = acc@;
    let r = sort_unmatched(acc);
    proof {
        lemma_unmatched_view_multiset(r@, acc_final);
        assert(unmatched_view(acc_final) == all_unmatched(tables@));
        assert(unmatched_view(acc_final).len() == acc_final.len());
        assert forall|t: int| 0 <= t < r@.len() implies (#[trigger] r@[t]).row@.len()
            == build_width by {
            assert(acc_final.contains(r@[t]));
            let t2 = choose|t2: int| 0 <= t2 < acc_final.len() && acc_final[t2] == r@[t];
            assert(acc_final[t2].row@.len() == build_width);
        }
    }
    r
}

/// Equal multisets of rows have equal multisets of views.
pub proof fn lemma_unmatched_view_multiset(a: Seq<UnmatchedRow>, b: Seq<UnmatchedRow>)
    requires
        a.to_multiset() == b.to_multiset(),
    ensures
        unmatched_view(a).to_multiset() == unmatched_view(b).to_multiset(),
    decreases a.len(),
{
    broadcast use vstd::seq_lib::group_to_multiset_ensures;

    if a.len() > 0 {
        let x = a.last();
        a.to_multiset_ensures();
        b.to_multiset_ensures();
        assert(a.to_multiset().count(x) > 0) by {
            assert(a.contains(x));
        }
        assert(a.to_multiset().contains(x));
        assert(b.to_multiset().contains(x));
        assert(b.contains(x));
        let i = choose|i: int| 0 <= i < b.len() && b[i] == x;
        let a2 = a.drop_last();
        let b2 = b.remove(i);
        assert(a.to_multiset() == a2.to_multiset().insert(x)) by {
            assert(a =~= a2.push(x));
        }
        assert(b2.to_multiset() == b.to_multiset().remove(x));
        assert(a2.to_multiset() =~= b2.to_multiset()) by {
            assert(a2.to_multiset() == a.to_multiset().remove(x)) by {
                assert(a.remove(a.len() - 1) =~= a2);
            }
        }
        lemma_unmatched_view_multiset(a2, b2);
        assert(unmatched_view(a).to_multiset() =~= unmatched_view(a2).to_multiset().insert(
            (x.seq, x.idx as int, x.row@),
        )) by {
            assert(unmatched_view(a) =~= unmatched_view(a2).push((x.seq, x.idx as int, x.row@)))
                by {
                crate::table::lemma_unmatched_view_push(a2, x);
                assert(a =~= a2.push(x));
            }
        }
        assert(unmatched_view(b).to_multiset() =~= unmatched_view(b2).to_multiset().insert(
            (x.seq, x.idx as int, x.row@),
        )) by {
            assert(unmatched_view(b).remove(i) =~= unmatched_view(b2)) by {
                assert forall|k: int| 0 <= k < b2.len() implies unmatched_view(b).remove(i)[k]
                    == unmatched_view(b2)[k] by {
                    if k < i {
                        assert(b2[k] == b[k]);
                    } else {
                        assert(b2[k] == b[k + 1]);
                    }
                }
            }
            assert(unmatched_view(b).to_multiset().remove(unmatched_view(b)[i])
                == unmatched_view(b).remove(i).to_multiset());
            assert(unmatched_view(b)[i] == (x.seq, x.idx as int, x.row@));
            assert(unmatched_view(b).to_multiset().contains((x.seq, x.idx as int, x.row@))) by {
                assert(unmatched_view(b).contains((x.seq, x.idx as int, x.row@))) by {
                    assert(unmatched_view(b)[i] == (x.seq, x.idx as int, x.row@));
                }
            }
        }
    } else {
        assert(b.to_multiset().len() == 0);
        assert(b.len() == 0);
        assert(unmatched_view(a) =~= unmatched_view(b));
    }
}

} // verus!
