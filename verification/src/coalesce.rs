//! Post-join key coalescing.
//!
//! After a full join with coalescing, each output column named like the i-th
//! left key column is merged with the reserved placeholder column of index i
//! using first-non-null semantics, and the placeholder columns are dropped.
//! Any other join passes the frame through unchanged.

use vstd::prelude::*;

use crate::frame::rows_view;
use crate::frame::Cell;
use crate::frame::Frame;
use crate::names::bytes_eq;
use crate::names::copy_bytes;
use crate::names::has_coalesce_prefix;
use crate::names::coalesce_prefix;
use crate::names::names_view;
use crate::names::placeholder_name;
use crate::names::spec_placeholder;

verus! {

/// One column of the coalesced output: the source position and, for a merged
/// key column, the position of its placeholder.
pub struct ColPlan {
    pub src: usize,
    pub merge: Option<usize>,
}

/// The view of a column plan.
pub open spec fn plan_view(p: Seq<ColPlan>) -> Seq<(int, Option<int>)> {
    p.map_values(
        |c: ColPlan|
            (
                c.src as int,
                match c.merge {
                    Option::None => None::<int>,
                    Option::Some(q) => Some(q as int),
                },
            ),
    )
}

/// The first position of a name at or after `from`, or the length when the
/// name does not occur.
pub open spec fn index_of_name(names: Seq<Seq<u8>>, nm: Seq<u8>, from: int) -> int
    decreases names.len() - from,
{
    if from < 0 || from >= names.len() {
        names.len() as int
    } else if names[from] == nm {
        from
    } else {
        index_of_name(names, nm, from + 1)
    }
}

/// Whether a name starts with the reserved coalescing prefix.
pub open spec fn spec_has_prefix(n: Seq<u8>) -> bool {
    n.len() >= coalesce_prefix().len() && n.take(coalesce_prefix().len() as int)
        == coalesce_prefix()
}

/// The coalescing plan from column `x` on, with `key_idx` keys already
/// merged: which source column each output column reads, and which
/// placeholder column a merged key column combines with.
pub open spec fn coalesce_cols(
    names: Seq<Seq<u8>>,
    lk: Seq<Seq<u8>>,
    x: int,
    key_idx: int,
) -> Seq<(int, Option<int>)>
    decreases names.len() - x,
{
    if x < 0 || x >= names.len() {
        Seq::empty()
    } else if key_idx < lk.len() && names[x] == lk[key_idx] {
        seq![(x, Some(index_of_name(names, spec_placeholder(key_idx as nat), 0)))] + coalesce_cols(
            names,
            lk,
            x + 1,
            key_idx + 1,
        )
    } else if spec_has_prefix(names[x]) {
        coalesce_cols(names, lk, x + 1, key_idx)
    } else {
        seq![(x, None::<int>)] + coalesce_cols(names, lk, x + 1, key_idx)
    }
}

/// Whether every merged key column's placeholder occurs among the names.
pub open spec fn coalesce_ok(names: Seq<Seq<u8>>, lk: Seq<Seq<u8>>, x: int, key_idx: int) -> bool
    decreases names.len() - x,
{
    if x < 0 || x >= names.len() {
        true
    } else if key_idx < lk.len() && names[x] == lk[key_idx] {
        index_of_name(names, spec_placeholder(key_idx as nat), 0) < names.len() && coalesce_ok(
            names,
            lk,
            x + 1,
            key_idx + 1,
        )
    } else if spec_has_prefix(names[x]) {
        coalesce_ok(names, lk, x + 1, key_idx)
    } else {
        coalesce_ok(names, lk, x + 1, key_idx)
    }
}

/// First-non-null of two cells; null only when both are null.
pub open spec fn merged_cell(a: Cell, b: Cell) -> Cell {
    if a is Some {
        a
    } else {
        b
    }
}

/// The output cell of one plan column applied to one row.
pub open spec fn plan_cell(row: Seq<Cell>, pl: (int, Option<int>)) -> Cell {
    match pl.1 {
        None => row[pl.0],
        Some(q) => merged_cell(row[pl.0], row[q]),
    }
}

/// The first position of a name, or the width when it does not occur.
pub fn index_of_name_exec(names: &Vec<Vec<u8>>, nm: &Vec<u8>) -> (r: usize)
    ensures
        r as int == index_of_name(names_view(names@), nm@, 0),
{
    let ghost nv = names_view(names@);
    let mut i: usize = 0;
    while i < names.len()
        invariant
            0 <= i <= names@.len(),
            nv == names_view(names@),
            index_of_name(nv, nm@, 0) == index_of_name(nv, nm@, i as int),
        decreases names.len() - i,
    {
        if bytes_eq(&names[i], nm) {
            assert(nv[i as int] == nm@);
            return i;
        }
        assert(nv[i as int] != nm@);
        i += 1;
    }
    names.len()
}

/// Builds the coalescing plan of an output schema.
pub fn build_plan(names: &Vec<Vec<u8>>, lk: &Vec<Vec<u8>>) -> (r: Vec<ColPlan>)
    requires
        coalesce_ok(names_view(names@), names_view(lk@), 0, 0),
    ensures
        plan_view(r@) == coalesce_cols(names_view(names@), names_view(lk@), 0, 0),
        forall|t: int| 0 <= t < r@.len() ==> (#[trigger] r@[t]).src < names@.len(),
        forall|t: int, q: usize|
            0 <= t < r@.len() && r@[t].merge == Some(q) ==> q < names@.len(),
{
    let ghost nv = names_view(names@);
    let ghost lv = names_view(lk@);
    let mut r: Vec<ColPlan> = Vec::new();
    let mut x: usize = 0;
    let mut key_idx: usize = 0;
    while x < names.len()
        invariant
            0 <= x <= names@.len(),
            0 <= key_idx <= lk@.len(),
            nv == names_view(names@),
            lv == names_view(lk@),
            coalesce_ok(nv, lv, x as int, key_idx as int),
            coalesce_cols(nv, lv, 0, 0) == plan_view(r@) + coalesce_cols(
                nv,
                lv,
                x as int,
                key_idx as int,
            ),
            forall|t: int| 0 <= t < r@.len() ==> (#[trigger] r@[t]).src < names@.len(),
            forall|t: int, q: usize|
                0 <= t < r@.len() && r@[t].merge == Some(q) ==> q < names@.len(),
        decreases names.len() - x,
    {
        let ghost r_pre = plan_view(r@);
        let is_key = key_idx < lk.len() && bytes_eq(&names[x], &lk[key_idx]);
        if is_key {
            assert(nv[x as int] == lv[key_idx as int]);
            let ph = placeholder_name(key_idx);
            let q = index_of_name_exec(names, &ph);
            assert(q < names@.len()) by {
                assert(index_of_name(nv, spec_placeholder(key_idx as nat), 0) < nv.len());
            }
            let ghost entry = (x as int, Some(q as int));
            r.push(ColPlan { src: x, merge: Some(q) });
            proof {
                assert(plan_view(r@) =~= r_pre.push(entry));
                assert(coalesce_cols(nv, lv, x as int, key_idx as int) == seq![entry]
                    + coalesce_cols(nv, lv, x + 1, key_idx + 1));
                assert(coalesce_cols(nv, lv, 0, 0) =~= plan_view(r@) + coalesce_cols(
                    nv,
                    lv,
                    x + 1,
                    key_idx + 1,
                ));
            }
            key_idx += 1;
        } else {
            assert(!(key_idx < lv.len() && nv[x as int] == lv[key_idx as int]));
            if has_coalesce_prefix(&names[x]) {
                assert(spec_has_prefix(nv[x as int]));
                proof {
                    assert(coalesce_cols(nv, lv, 0, 0) =~= plan_view(r@) + coalesce_cols(
                        nv,
                        lv,
                        x + 1,
                        key_idx as int,
                    ));
                }
            } else {
                assert(!spec_has_prefix(nv[x as int]));
                let ghost entry = (x as int, None::<int>);
                r.push(ColPlan { src: x, merge: None });
                proof {
                    assert(plan_view(r@) =~= r_pre.push(entry));
                    assert(coalesce_cols(nv, lv, x as int, key_idx as int) == seq![entry]
                        + coalesce_cols(nv, lv, x + 1, key_idx as int));
                    assert(coalesce_cols(nv, lv, 0, 0) =~= plan_view(r@) + coalesce_cols(
                        nv,
                        lv,
                        x + 1,
                        key_idx as int,
                    ));
                }
            }
        }
        x += 1;
    }
    proof {
        assert(coalesce_cols(nv, lv, names@.len() as int, key_idx as int) =~= Seq::<
            (int, Option<int>),
        >::empty());
        assert(plan_view(r@) =~= coalesce_cols(nv, lv, 0, 0));
    }
    r
}

/// Applies post-join coalescing: merges each key column with its placeholder
/// by first-non-null and drops the placeholders; any join without full
/// coalescing passes the frame through unchanged.
pub fn postprocess_join(df: Frame, full_coalesce: bool, lk: &Vec<Vec<u8>>) -> (r: Frame)
    requires
        df.wf(),
        full_coalesce ==> coalesce_ok(names_view(df.names@), names_view(lk@), 0, 0),
    ensures
        r.wf(),
        !full_coalesce ==> r.names@ == df.names@ && r.rows@ == df.rows@,
        full_coalesce ==> {
            let plan = coalesce_cols(names_view(df.names@), names_view(lk@), 0, 0);
            &&& names_view(r.names@) == plan.map_values(
                |pl: (int, Option<int>)| names_view(df.names@)[pl.0],
            )
            &&& r.spec_height() == df.spec_height()
            &&& forall|i: int|
                0 <= i < df.spec_height() ==> rows_view(r.rows@)[i] == plan.map_values(
                    |pl: (int, Option<int>)| plan_cell(rows_view(df.rows@)[i], pl),
                )
        },
{
    if !full_coalesce {
        return df;
    }
    let ghost plan_spec = coalesce_cols(names_view(df.names@), names_view(lk@), 0, 0);
    let plan = build_plan(&df.names, lk);
    let mut names: Vec<Vec<u8>> = Vec::new();
    let mut x: usize = 0;
    while x < plan.len()
        invariant
            0 <= x <= plan@.len(),
            plan_view(plan@) == plan_spec,
            forall|t: int| 0 <= t < plan@.len() ==> (#[trigger] plan@[t]).src < df.names@.len(),
            names@.len() == x,
            forall|t: int|
                0 <= t < x ==> (#[trigger] names@[t])@ == names_view(df.names@)[plan@[t].src as int],
        decreases plan.len() - x,
    {
        names.push(copy_bytes(&df.names[plan[x].src]));
        x += 1;
    }
    proof {
        assert forall|t: int| 0 <= t < names@.len() implies names_view(names@)[t]
            == plan_spec.map_values(
            |pl: (int, Option<int>)| names_view(df.names@)[pl.0],
        )[t] by {
            assert(names_view(names@)[t] == names@[t]@);
            assert(plan_spec[t] == plan_view(plan@)[t]);
        }
        assert(names_view(names@) =~= plan_spec.map_values(
            |pl: (int, Option<int>)| names_view(df.names@)[pl.0],
        ));
    }
    let mut rows: Vec<Vec<Cell>> = Vec::new();
    let mut i: usize = 0;
    while i < df.rows.len()
        invariant
            0 <= i <= df.rows@.len(),
            df.wf(),
            plan_view(plan@) == plan_spec,
            forall|t: int| 0 <= t < plan@.len() ==> (#[trigger] plan@[t]).src < df.names@.len(),
            forall|t: int, q: usize|
                0 <= t < plan@.len() && plan@[t].merge == Some(q) ==> q < df.names@.len(),
            names@.len() == plan@.len(),
            rows@.len() == i,
            forall|t: int|
                0 <= t < i ==> (#[trigger] rows@[t])@ == plan_spec.map_values(
                    |pl: (int, Option<int>)| plan_cell(rows_view(df.rows@)[t], pl),
                ),
        decreases df.rows.len() - i,
    {
        let mut row: Vec<Cell> = Vec::new();
        let mut t: usize = 0;
        while t < plan.len()
            invariant
                0 <= t <= plan@.len(),
                0 <= i < df.rows@.len(),
                df.wf(),
                plan_view(plan@) == plan_spec,
                forall|t2: int|
                    0 <= t2 < plan@.len() ==> (#[trigger] plan@[t2]).src < df.names@.len(),
                forall|t2: int, q: usize|
                    0 <= t2 < plan@.len() && plan@[t2].merge == Some(q) ==> q < df.names@.len(),
                row@.len() == t,
                forall|t2: int|
                    0 <= t2 < t ==> row@[t2] == plan_cell(
                        rows_view(df.rows@)[i as int],
                        plan_spec[t2],
                    ),
            decreases plan.len() - t,
        {
            let src = plan[t].src;
            let cell: Cell = match plan[t].merge {
                None => df.rows[i][src],
                Some(q) => {
                    if df.rows[i][src].is_some() {
                        df.rows[i][src]
                    } else {
                        df.rows[i][q]
                    }
                },
            };
            proof {
                assert(plan_spec[t as int] == plan_view(plan@)[t as int]);
                assert(rows_view(df.rows@)[i as int] == df.rows@[i as int]@);
            }
            row.push(cell);
            t += 1;
        }
        proof {
            assert(row@ =~= plan_spec.map_values(
                |pl: (int, Option<int>)| plan_cell(rows_view(df.rows@)[i as int], pl),
            ));
        }
        rows.push(row);
        i += 1;
    }
    proof {
        assert forall|t: int| 0 <= t < rows@.len() implies rows_view(rows@)[t] == (
        #[trigger] rows@[t])@ by {}
        assert(forall|t: int|
            0 <= t < rows@.len() ==> (#[trigger] rows@[t])@.len() == names@.len());
    }
    Frame { names, rows }
}

/// A coalesced key cell is null exactly when both its sources are null.
pub proof fn lemma_merged_cell_null(a: Cell, b: Cell)
    ensures
        merged_cell(a, b) is None <==> (a is None && b is None),
{
}

} // verus!
