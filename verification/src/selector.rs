//! Payload selection and output renaming (the selector rules).
//!
//! A payload selector holds, for each input column of one side, whether the
//! column is part of the joined payload and under what output name. The rules
//! depend on the join type, on key membership, on coalescing and on the
//! configured suffix; a right-hand column whose suffixed name already exists
//! on the right is a construction-time error.

use vstd::prelude::*;

use crate::args::JoinArgs;
use crate::args::JoinError;
use crate::args::JoinType;
use crate::frame::rows_view;
use crate::frame::Cell;
use crate::frame::Frame;
use crate::names::concat_bytes;
use crate::names::copy_bytes;
use crate::names::names_view;
use crate::names::placeholder_name;
use crate::names::schema_contains;
use crate::names::spec_placeholder;

verus! {

/// The mathematical view of a payload selector.
pub open spec fn sel_view(s: Seq<Option<Vec<u8>>>) -> Seq<Option<Seq<u8>>> {
    s.map_values(
        |o: Option<Vec<u8>>|
            match o {
                Option::None => None::<Seq<u8>>,
                Option::Some(v) => Some(v@),
            },
    )
}

/// Whether this side keeps the coalesced key columns under their own names:
/// the left side for all join types but `Right`, the right side for `Right`.
pub open spec fn keeps_coalesced_keys(is_left: bool, how: JoinType) -> bool {
    is_left != (how == JoinType::Right)
}

/// The selector entry of the column at position `i`.
pub open spec fn selector_entry(
    this: Seq<Seq<u8>>,
    other: Seq<Seq<u8>>,
    this_key: Seq<Seq<u8>>,
    is_left: bool,
    how: JoinType,
    coalesce: bool,
    suffix: Seq<u8>,
    i: int,
) -> Option<Seq<u8>> {
    if coalesce && this_key.contains(this[i]) {
        if keeps_coalesced_keys(is_left, how) {
            Some(this[i])
        } else if how == JoinType::Full {
            Some(spec_placeholder(i as nat))
        } else {
            None
        }
    } else if !other.contains(this[i]) || is_left {
        Some(this[i])
    } else {
        Some(this[i] + suffix)
    }
}

/// Whether the column at position `i` triggers the duplicate-name error: it
/// is renamed with the suffix and the suffixed name already exists, on
/// either side.
pub open spec fn entry_collides(
    this: Seq<Seq<u8>>,
    other: Seq<Seq<u8>>,
    this_key: Seq<Seq<u8>>,
    is_left: bool,
    how: JoinType,
    coalesce: bool,
    suffix: Seq<u8>,
    i: int,
) -> bool {
    &&& !(coalesce && this_key.contains(this[i]))
    &&& other.contains(this[i])
    &&& !is_left
    &&& (other.contains(this[i] + suffix) || this.contains(this[i] + suffix))
}

/// The name a duplicate-column error carries.
pub open spec fn duplicate_name(e: JoinError) -> Seq<u8> {
    match e {
        JoinError::Duplicate(n) => n@,
    }
}

/// Computes the payload selector of one side.
///
/// Returns the selector entry of every column, or the duplicate-column error
/// of the first colliding column; the error comes exactly when some column
/// collides.
pub fn compute_payload_selector(
    this: &Vec<Vec<u8>>,
    other: &Vec<Vec<u8>>,
    this_key: &Vec<Vec<u8>>,
    is_left: bool,
    args: &JoinArgs,
) -> (r: Result<Vec<Option<Vec<u8>>>, JoinError>)
    ensures
        match r {
            Ok(sel) => {
                &&& sel@.len() == this@.len()
                &&& forall|i: int|
                    0 <= i < this@.len() ==> sel_view(sel@)[i] == selector_entry(
                        names_view(this@),
                        names_view(other@),
                        names_view(this_key@),
                        is_left,
                        args.how,
                        args.coalesce,
                        args.suffix@,
                        i,
                    )
                &&& forall|i: int|
                    0 <= i < this@.len() ==> !entry_collides(
                        names_view(this@),
                        names_view(other@),
                        names_view(this_key@),
                        is_left,
                        args.how,
                        args.coalesce,
                        args.suffix@,
                        i,
                    )
            },
            Err(e) => exists|i: int|
                {
                    &&& 0 <= i < this@.len()
                    &&& #[trigger] entry_collides(
                        names_view(this@),
                        names_view(other@),
                        names_view(this_key@),
                        is_left,
                        args.how,
                        args.coalesce,
                        args.suffix@,
                        i,
                    )
                    &&& forall|j: int|
                        0 <= j < i ==> !entry_collides(
                            names_view(this@),
                            names_view(other@),
                            names_view(this_key@),
                            is_left,
                            args.how,
                            args.coalesce,
                            args.suffix@,
                            j,
                        )
                    &&& duplicate_name(e) == names_view(this@)[i] + args.suffix@
                },
        },
{
    let ghost tv = names_view(this@);
    let ghost ov = names_view(other@);
    let ghost kv = names_view(this_key@);
    let mut sel: Vec<Option<Vec<u8>>> = Vec::new();
    let mut i: usize = 0;
    while i < this.len()
        invariant
            0 <= i <= this@.len(),
            tv == names_view(this@),
            ov == names_view(other@),
            kv == names_view(this_key@),
            sel@.len() == i,
            forall|j: int|
                0 <= j < i ==> sel_view(sel@)[j] == selector_entry(
                    tv,
                    ov,
                    kv,
                    is_left,
                    args.how,
                    args.coalesce,
                    args.suffix@,
                    j,
                ),
            forall|j: int|
                0 <= j < i ==> !entry_collides(
                    tv,
                    ov,
                    kv,
                    is_left,
                    args.how,
                    args.coalesce,
                    args.suffix@,
                    j,
                ),
        decreases this.len() - i,
    {
        let c = &this[i];
        assert(c@ == tv[i as int]);
        let entry: Option<Vec<u8>>;
        if args.should_coalesce() && schema_contains(this_key, c) {
            if is_left != (args.how == JoinType::Right) {
                entry = Some(copy_bytes(c));
            } else if args.how == JoinType::Full {
                entry = Some(placeholder_name(i));
            } else {
                entry = None;
            }
        } else {
            let in_other = schema_contains(other, c);
            if !in_other || is_left {
                entry = Some(copy_bytes(c));
            } else {
                let suffixed = concat_bytes(c, &args.suffix);
                if schema_contains(other, &suffixed) || schema_contains(this, &suffixed) {
                    assert(entry_collides(
                        tv,
                        ov,
                        kv,
                        is_left,
                        args.how,
                        args.coalesce,
                        args.suffix@,
                        i as int,
                    ));
                    return Err(JoinError::Duplicate(suffixed));
                }
                entry = Some(suffixed);
            }
        }
        let ghost ev = match entry {
            Option::None => None::<Seq<u8>>,
            Option::Some(ref v) => Some(v@),
        };
        proof {
            assert(ev == selector_entry(
                tv,
                ov,
                kv,
                is_left,
                args.how,
                args.coalesce,
                args.suffix@,
                i as int,
            ));
        }
        let ghost prev = sel@;
        sel.push(entry);
        proof {
            assert(sel@ == prev.push(entry));
            assert forall|j: int| 0 <= j < i + 1 implies sel_view(sel@)[j] == selector_entry(
                tv,
                ov,
                kv,
                is_left,
                args.how,
                args.coalesce,
                args.suffix@,
                j,
            ) by {
                if j < i {
                    assert(sel@[j] == prev[j]);
                    assert(sel_view(sel@)[j] == sel_view(prev)[j]);
                } else {
                    assert(sel_view(sel@)[j] == ev);
                }
            }
        }
        i += 1;
    }
    Ok(sel)
}

/// The positions of the kept columns, in order.
pub open spec fn selected_positions(sel: Seq<Option<Seq<u8>>>) -> Seq<int>
    decreases sel.len(),
{
    if sel.len() == 0 {
        Seq::empty()
    } else {
        selected_positions(sel.drop_last()) + if sel.last() is Some {
            seq![sel.len() - 1]
        } else {
            Seq::empty()
        }
    }
}

/// The output names of the kept columns, in order.
pub open spec fn selected_names(sel: Seq<Option<Seq<u8>>>) -> Seq<Seq<u8>> {
    selected_positions(sel).map_values(|j: int| sel[j].unwrap())
}

/// The payload of one row: the cells of the kept columns, in order.
pub open spec fn select_row(row: Seq<Cell>, sel: Seq<Option<Seq<u8>>>) -> Seq<Cell> {
    selected_positions(sel).map_values(|j: int| row[j])
}

/// Every selected position indexes into the selector.
pub proof fn lemma_selected_positions_in_range(sel: Seq<Option<Seq<u8>>>)
    ensures
        forall|k: int|
            0 <= k < selected_positions(sel).len() ==> 0 <= #[trigger] selected_positions(sel)[k]
                < sel.len(),
    decreases sel.len(),
{
    if sel.len() > 0 {
        lemma_selected_positions_in_range(sel.drop_last());
        let p = selected_positions(sel);
        let q = selected_positions(sel.drop_last());
        assert forall|k: int| 0 <= k < p.len() implies 0 <= #[trigger] p[k] < sel.len() by {
            if k < q.len() {
                assert(p[k] == q[k]);
            } else {
                assert(p[k] == sel.len() - 1);
            }
        }
    }
}

/// The kept positions, as indices.
pub fn selected_positions_exec(sel: &Vec<Option<Vec<u8>>>) -> (r: Vec<usize>)
    ensures
        r@.map_values(|u: usize| u as int) == selected_positions(sel_view(sel@)),
        forall|k: int| 0 <= k < r@.len() ==> (#[trigger] r@[k]) < sel@.len(),
{
    let ghost sv = sel_view(sel@);
    let mut r: Vec<usize> = Vec::new();
    let mut i: usize = 0;
    while i < sel.len()
        invariant
            0 <= i <= sel@.len(),
            sv == sel_view(sel@),
            r@.map_values(|u: usize| u as int) == selected_positions(sv.take(i as int)),
            forall|k: int| 0 <= k < r@.len() ==> (#[trigger] r@[k]) < i,
        decreases sel.len() - i,
    {
        proof {
            assert(sv.take(i + 1).drop_last() =~= sv.take(i as int));
            assert(sv.take(i + 1).last() == sv[i as int]);
        }
        if sel[i].is_some() {
            assert(sv[i as int] is Some);
            r.push(i);
            assert(r@.map_values(|u: usize| u as int) =~= selected_positions(sv.take(i + 1)));
        } else {
            assert(sv[i as int] is None);
            assert(r@.map_values(|u: usize| u as int) =~= selected_positions(sv.take(i + 1)));
        }
        i += 1;
    }
    assert(sv.take(sel@.len() as int) =~= sv);
    r
}

/// The schema of the selected payload: the kept columns under their output
/// names.
pub fn select_schema(schema: &Vec<Vec<u8>>, sel: &Vec<Option<Vec<u8>>>) -> (r: Vec<Vec<u8>>)
    ensures
        names_view(r@) == selected_names(sel_view(sel@)),
{
    let ghost sv = sel_view(sel@);
    let positions = selected_positions_exec(sel);
    let mut names: Vec<Vec<u8>> = Vec::new();
    let mut k: usize = 0;
    while k < positions.len()
        invariant
            0 <= k <= positions@.len(),
            sv == sel_view(sel@),
            positions@.map_values(|u: usize| u as int) == selected_positions(sv),
            forall|t: int| 0 <= t < positions@.len() ==> (#[trigger] positions@[t]) < sel@.len(),
            names@.len() == k,
            forall|t: int|
                0 <= t < k ==> (#[trigger] names@[t])@ == sv[positions@[t] as int].unwrap(),
        decreases positions.len() - k,
    {
        let p = positions[k];
        assert(sv[p as int] is Some) by {
            assert(selected_positions(sv)[k as int] == p as int);
            lemma_selected_positions_some(sv, k as int);
        }
        match &sel[p] {
            Some(n) => {
                names.push(copy_bytes(n));
            },
            None => {
                proof {
                    assert(false);
                }
            },
        }
        k += 1;
    }
    proof {
        assert forall|t: int| 0 <= t < names@.len() implies names_view(names@)[t] == selected_names(
            sv,
        )[t] by {
            assert(names_view(names@)[t] == names@[t]@);
            assert(selected_positions(sv)[t] == positions@[t] as int);
        }
        assert(names_view(names@) =~= selected_names(sv));
    }
    names
}

/// The selector holds a name at every selected position.
pub proof fn lemma_selected_positions_some(sel: Seq<Option<Seq<u8>>>, k: int)
    requires
        0 <= k < selected_positions(sel).len(),
    ensures
        0 <= selected_positions(sel)[k] < sel.len(),
        sel[selected_positions(sel)[k]] is Some,
    decreases sel.len(),
{
    if sel.len() > 0 {
        if k < selected_positions(sel.drop_last()).len() {
            lemma_selected_positions_some(sel.drop_last(), k);
        }
    }
}

/// The selected payload of a frame: the kept columns under their output
/// names, all rows kept.
pub fn select_payload(df: &Frame, sel: &Vec<Option<Vec<u8>>>) -> (r: Frame)
    requires
        df.wf(),
        sel@.len() == df.names@.len(),
    ensures
        r.wf(),
        names_view(r.names@) == selected_names(sel_view(sel@)),
        r.spec_height() == df.spec_height(),
        forall|i: int|
            0 <= i < df.spec_height() ==> rows_view(r.rows@)[i] == select_row(
                rows_view(df.rows@)[i],
                sel_view(sel@),
            ),
{
    let ghost sv = sel_view(sel@);
    let positions = selected_positions_exec(sel);
    let names = select_schema(&df.names, sel);
    proof {
        lemma_selected_positions_in_range(sv);
        assert(names_view(names@).len() == names@.len());
        assert(selected_names(sv).len() == selected_positions(sv).len());
    }
    let mut rows: Vec<Vec<Cell>> = Vec::new();
    let mut i: usize = 0;
    while i < df.rows.len()
        invariant
            0 <= i <= df.rows@.len(),
            df.wf(),
            sv == sel_view(sel@),
            sel@.len() == df.names@.len(),
            positions@.map_values(|u: usize| u as int) == selected_positions(sv),
            forall|t: int| 0 <= t < positions@.len() ==> (#[trigger] positions@[t]) < sel@.len(),
            names@.len() == selected_positions(sv).len(),
            rows@.len() == i,
            forall|k: int|
                0 <= k < i ==> (#[trigger] rows@[k])@ == select_row(rows_view(df.rows@)[k], sv),
        decreases df.rows.len() - i,
    {
        let row = crate::frame::gather_cells(&df.rows[i], &positions);
        proof {
            let dr = rows_view(df.rows@)[i as int];
            assert forall|t: int| 0 <= t < positions@.len() implies positions@.map_values(
                |u: usize| df.rows@[i as int]@[u as int],
            )[t] == select_row(dr, sv)[t] by {
                assert(selected_positions(sv)[t] == positions@[t] as int);
            }
            assert(row@ =~= select_row(dr, sv));
        }
        rows.push(row);
        i += 1;
    }
    proof {
        assert(forall|k: int|
            0 <= k < rows@.len() ==> rows_view(rows@)[k] == (#[trigger] rows@[k])@);
        assert(forall|k: int|
            0 <= k < rows@.len() ==> (#[trigger] rows@[k])@.len() == names@.len());
    }
    Frame { names, rows }
}

} // verus!
