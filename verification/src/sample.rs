//! Sample phase: absorbing a prefix of both inputs to choose the build side.
//!
//! Both sides buffer their morsels and publish a running row count; a side
//! asks its source to stop once it reaches the sample limit or ten times the
//! other side's final length. When sampling stops, the build side is chosen
//! from the buffered lengths, falling back to extrapolated distinct-key
//! estimates only when the sizes alone do not decide.

use vstd::prelude::*;

use crate::frame::rows_view;
use crate::frame::Cell;
use crate::keys::distinct_keys;
use crate::keys::distinct_keys_exec;
use crate::keys::keys_of_frame;
use crate::keys::select_keys;
use crate::morsel::morsel_rows;
use crate::morsel::Morsel;

verus! {

/// A side this much larger than the other is never the build side when the
/// smaller side is complete.
pub const LOPSIDED_FACTOR: usize = 10;

/// Buffered sample morsels and running lengths of both sides.
pub struct SampleState {
    pub left: Vec<Morsel>,
    pub left_len: usize,
    pub right: Vec<Morsel>,
    pub right_len: usize,
}

impl SampleState {
    pub fn new() -> (r: SampleState)
        ensures
            r.left@.len() == 0,
            r.right@.len() == 0,
            r.left_len == 0,
            r.right_len == 0,
    {
        SampleState { left: Vec::new(), left_len: 0, right: Vec::new(), right_len: 0 }
    }
}

/// Saturating sum of a length and a morsel height.
pub open spec fn sat_add(a: int, b: int) -> int {
    if a + b > usize::MAX as int {
        usize::MAX as int
    } else {
        a + b
    }
}

/// Absorbs one morsel into one side's buffer: the running length grows by
/// the morsel's height and the source is asked to stop when this side has
/// reached the sample limit or ten times the other side's final length.
pub fn sink_morsel(
    buf: &mut Vec<Morsel>,
    len: &mut usize,
    m: Morsel,
    other_final_len: usize,
    sample_limit: usize,
) -> (stop: bool)
    ensures
        final(buf)@ == old(buf)@.push(m),
        *final(len) as int == sat_add(*old(len) as int, m.df.spec_height() as int),
        stop == (*final(len) >= sample_limit || (*final(len) as int) >= (
        other_final_len as int) * (LOPSIDED_FACTOR as int)),
{
    let h = m.df.height();
    if *len <= usize::MAX - h {
        *len += h;
    } else {
        *len = usize::MAX;
    }
    let new_len = *len;
    buf.push(m);
    let stop = new_len >= sample_limit || (new_len as u128) >= (other_final_len as u128) * (
    LOPSIDED_FACTOR as u128);
    stop
}

/// Whether sampling is over: both sides are done or saturated, or one side
/// is done and the other reached ten times its length.
pub open spec fn spec_stop_sampling(
    left_done: bool,
    right_done: bool,
    ll: int,
    rl: int,
    limit: int,
) -> bool {
    let ld = left_done || ll >= limit;
    let rd = right_done || rl >= limit;
    (ld && rd) || (ld && rl >= (LOPSIDED_FACTOR as int) * ll) || (rd && ll >= (
    LOPSIDED_FACTOR as int) * rl)
}

/// Whether sampling is over.
pub fn stop_sampling(
    left_done: bool,
    right_done: bool,
    left_len: usize,
    right_len: usize,
    sample_limit: usize,
) -> (r: bool)
    ensures
        r == spec_stop_sampling(
            left_done,
            right_done,
            left_len as int,
            right_len as int,
            sample_limit as int,
        ),
{
    let ld = left_done || left_len >= sample_limit;
    let rd = right_done || right_len >= sample_limit;
    (ld && rd) || (ld && (right_len as u128) >= (LOPSIDED_FACTOR as u128) * (left_len as u128)) || (
    rd && (left_len as u128) >= (LOPSIDED_FACTOR as u128) * (right_len as u128))
}

/// Whether the build-side choice needs cardinality estimates: only when
/// neither side is saturated and the sizes are within a factor of ten, or
/// when both sides are saturated.
pub open spec fn spec_needs_estimate(l_sat: bool, r_sat: bool, ll: int, rl: int) -> bool {
    match (l_sat, r_sat) {
        (false, false) => !(ll * (LOPSIDED_FACTOR as int) < rl || ll > rl * (
        LOPSIDED_FACTOR as int)),
        (false, true) => false,
        (true, false) => false,
        (true, true) => true,
    }
}

/// Whether the build-side choice needs cardinality estimates.
pub fn needs_estimate(l_sat: bool, r_sat: bool, left_len: usize, right_len: usize) -> (r: bool)
    ensures
        r == spec_needs_estimate(l_sat, r_sat, left_len as int, right_len as int),
{
    match (l_sat, r_sat) {
        (false, false) => !((left_len as u128) * (LOPSIDED_FACTOR as u128) < (right_len as u128)
            || (left_len as u128) > (right_len as u128) * (LOPSIDED_FACTOR as u128)),
        (false, true) => false,
        (true, false) => false,
        (true, true) => true,
    }
}

/// The chosen build side: true for left. An unsaturated side beats a
/// saturated one; strongly lopsided sizes pick the smaller side outright;
/// otherwise the cost model compares three units per build row plus three
/// per distinct key against one unit per probe row.
pub open spec fn spec_choose_build_side(
    l_sat: bool,
    r_sat: bool,
    ll: int,
    rl: int,
    lc: int,
    rc: int,
) -> bool {
    match (l_sat, r_sat) {
        (false, false) => {
            if ll * (LOPSIDED_FACTOR as int) < rl || ll > rl * (LOPSIDED_FACTOR as int) {
                ll < rl
            } else {
                ll * 3 + 3 * lc + rl < rl * 3 + 3 * rc + ll
            }
        },
        (false, true) => true,
        (true, false) => false,
        (true, true) => lc < rc,
    }
}

/// The chosen build side; the estimates are consulted only when the sizes
/// alone do not decide.
pub fn choose_build_side(
    l_sat: bool,
    r_sat: bool,
    left_len: usize,
    right_len: usize,
    cards: Option<(usize, usize)>,
) -> (r: bool)
    requires
        spec_needs_estimate(l_sat, r_sat, left_len as int, right_len as int) ==> cards is Some,
    ensures
        spec_needs_estimate(l_sat, r_sat, left_len as int, right_len as int) ==> r
            == spec_choose_build_side(
            l_sat,
            r_sat,
            left_len as int,
            right_len as int,
            cards.unwrap().0 as int,
            cards.unwrap().1 as int,
        ),
        !spec_needs_estimate(l_sat, r_sat, left_len as int, right_len as int) ==> forall|
            lc: int,
            rc: int,
        |
            r == spec_choose_build_side(
                l_sat,
                r_sat,
                left_len as int,
                right_len as int,
                lc,
                rc,
            ),
{
    let ll = left_len as u128;
    let rl = right_len as u128;
    proof {
        assert(ll <= 0xFFFF_FFFF_FFFF_FFFFu128);
        assert(rl <= 0xFFFF_FFFF_FFFF_FFFFu128);
    }
    match (l_sat, r_sat) {
        (false, false) => {
            if ll * 10 < rl || ll > rl * 10 {
                left_len < right_len
            } else {
                let (lc, rc) = match cards {
                    Some(p) => p,
                    None => (0, 0),
                };
                proof {
                    assert((lc as u128) <= 0xFFFF_FFFF_FFFF_FFFFu128);
                    assert((rc as u128) <= 0xFFFF_FFFF_FFFF_FFFFu128);
                }
                ll * 3 + 3 * (lc as u128) + rl < rl * 3 + 3 * (rc as u128) + ll
            }
        },
        (false, true) => true,
        (true, false) => false,
        (true, true) => {
            let (lc, rc) = match cards {
                Some(p) => p,
                None => (0, 0),
            };
            lc < rc
        },
    }
}

/// The key rows of a whole morsel list, in morsel order then row order.
pub open spec fn all_keys(morsels: Seq<Morsel>, key_idxs: Seq<usize>) -> Seq<Seq<Cell>>
    decreases morsels.len(),
{
    if morsels.len() == 0 {
        Seq::empty()
    } else {
        all_keys(morsels.drop_last(), key_idxs) + keys_of_frame(
            morsel_rows(morsels.last()),
            key_idxs,
        )
    }
}

/// The sample estimate scaled up to the side's true length.
pub open spec fn extrapolated(est: int, len: int, limit: int) -> int {
    if len == 0 {
        0
    } else {
        est * len / (if len < limit {
            len
        } else {
            limit
        })
    }
}

/// Estimates the number of distinct keys of one side: the exact distinct
/// count of the buffered keys, extrapolated by the ratio of the true length
/// to the sampled prefix, saturating at the machine limit.
pub fn estimate_cardinality(
    morsels: &Vec<Morsel>,
    key_idxs: &Vec<usize>,
    len: usize,
    sample_limit: usize,
) -> (r: usize)
    requires
        sample_limit > 0,
        forall|m: int| 0 <= m < morsels@.len() ==> (#[trigger] morsels@[m]).wf(),
        forall|m: int, k: int|
            0 <= m < morsels@.len() && 0 <= k < key_idxs@.len() ==> (#[trigger] key_idxs@[k]) < (
            #[trigger] morsels@[m]).df.names@.len(),
    ensures
        r as int == (if extrapolated(
            distinct_keys(all_keys(morsels@, key_idxs@)) as int,
            len as int,
            sample_limit as int,
        ) > usize::MAX as int {
            usize::MAX as int
        } else {
            extrapolated(
                distinct_keys(all_keys(morsels@, key_idxs@)) as int,
                len as int,
                sample_limit as int,
            )
        }),
{
    let mut acc: Vec<Vec<Cell>> = Vec::new();
    let mut m: usize = 0;
    proof {
        assert(morsels@.take(0) =~= Seq::<Morsel>::empty());
        assert(rows_view(acc@) =~= all_keys(morsels@.take(0), key_idxs@));
    }
    while m < morsels.len()
        invariant
            0 <= m <= morsels@.len(),
            forall|m2: int| 0 <= m2 < morsels@.len() ==> (#[trigger] morsels@[m2]).wf(),
            forall|m2: int, k: int|
                0 <= m2 < morsels@.len() && 0 <= k < key_idxs@.len() ==> (#[trigger] key_idxs@[k])
                    < (#[trigger] morsels@[m2]).df.names@.len(),
            rows_view(acc@) == all_keys(morsels@.take(m as int), key_idxs@),
        decreases morsels.len() - m,
    {
        let keys = select_keys(&morsels[m].df, key_idxs);
        let ghost acc_pre = rows_view(acc@);
        let ghost keys_v = rows_view(keys@);
        let mut keys = keys;
        let ghost kl = keys@;
        let ghost mut t: int = 0;
        while keys.len() > 0
            invariant
                0 <= t <= kl.len(),
                keys@ == kl.skip(t),
                rows_view(acc@) == acc_pre + rows_view(kl.take(t)),
            decreases keys.len(),
        {
            assert(t < kl.len()) by {
                assert(kl.skip(t).len() > 0);
            }
            let row = keys.remove(0);
            assert(row == kl[t]);
            let ghost acc_snap = acc@;
            acc.push(row);
            proof {
                assert(acc@ == acc_snap.push(acc@.last()));
                crate::table::lemma_rows_view_push(acc_snap, acc@.last());
                assert(kl.take(t + 1).drop_last() =~= kl.take(t));
                assert(rows_view(kl.take(t + 1)) =~= rows_view(kl.take(t)).push(kl[t]@));
                assert(rows_view(acc@) =~= acc_pre + rows_view(kl.take(t + 1)));
                assert(keys@ =~= kl.skip(t + 1));
                t = t + 1;
            }
        }
        proof {
            assert(kl.skip(t).len() == 0);
            assert(kl.take(t) =~= kl);
            assert(morsels@.take(m + 1).drop_last() =~= morsels@.take(m as int));
            assert(morsels@.take(m + 1).last() == morsels@[m as int]);
            assert(rows_view(kl) == keys_v);
            assert(keys_v == keys_of_frame(morsel_rows(morsels@[m as int]), key_idxs@));
            assert(rows_view(acc@) =~= all_keys(morsels@.take(m + 1), key_idxs@));
        }
        m += 1;
    }
    proof {
        assert(morsels@.take(morsels@.len() as int) =~= morsels@);
    }
    let est = distinct_keys_exec(&acc);
    if len == 0 {
        return 0;
    }
    let minv = if len < sample_limit {
        len
    } else {
        sample_limit
    };
    proof {
        let e = est as u128 as int;
        let l = len as u128 as int;
        assert(e * l <= 0xFFFF_FFFF_FFFF_FFFF * 0xFFFF_FFFF_FFFF_FFFF) by (nonlinear_arith)
            requires
                0 <= e <= 0xFFFF_FFFF_FFFF_FFFF,
                0 <= l <= 0xFFFF_FFFF_FFFF_FFFF,
        ;
    }
    let q: u128 = (est as u128) * (len as u128) / (minv as u128);
    if q > (usize::MAX as u128) {
        usize::MAX
    } else {
        q as usize
    }
}

} // verus!
