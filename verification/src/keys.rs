//! Hashed key handling: key rows, null keys, matching, partitioning and
//! distinct-key counting.
//!
//! A key row is the projection of a data row onto the key columns. Rows with
//! a null key cell are unmatchable unless nulls compare equal. Partitioning
//! is deterministic: a key's partition is a pure function of its cells, so
//! matching keys always land in the same partition.

use vstd::prelude::*;

use crate::frame::gather_cells;
use crate::frame::rows_view;
use crate::frame::Cell;
use crate::frame::Frame;

verus! {

/// Divisor of the per-cell code.
pub const CELL_CODE_MOD: u64 = 0x4000_0000;

/// Divisor of the accumulated key hash.
pub const KEY_HASH_MOD: u64 = 0x4000_0000_0000;

/// Whether a key row holds a null cell.
pub open spec fn key_is_null(k: Seq<Cell>) -> bool {
    exists|i: int| 0 <= i < k.len() && k[i] is None
}

/// Whether a key row can match nothing: it holds a null and nulls are not
/// equal to each other.
pub open spec fn key_unmatchable(k: Seq<Cell>, nulls_equal: bool) -> bool {
    !nulls_equal && key_is_null(k)
}

/// Whether two key rows join with each other.
pub open spec fn keys_match(a: Seq<Cell>, b: Seq<Cell>, nulls_equal: bool) -> bool {
    a == b && !key_unmatchable(a, nulls_equal)
}

/// Whether a key row holds a null cell.
pub fn key_is_null_exec(k: &Vec<Cell>) -> (r: bool)
    ensures
        r == key_is_null(k@),
{
    let mut i: usize = 0;
    while i < k.len()
        invariant
            0 <= i <= k@.len(),
            forall|j: int| 0 <= j < i ==> k@[j] is Some,
        decreases k.len() - i,
    {
        if k[i].is_none() {
            return true;
        }
        i += 1;
    }
    false
}

/// Equality of two cells.
pub fn cell_eq(a: Cell, b: Cell) -> (r: bool)
    ensures
        r == (a == b),
{
    match (a, b) {
        (None, None) => true,
        (Some(x), Some(y)) => x == y,
        _ => false,
    }
}

/// Equality of two key rows.
pub fn key_rows_eq(a: &Vec<Cell>, b: &Vec<Cell>) -> (r: bool)
    ensures
        r == (a@ == b@),
{
    if a.len() != b.len() {
        assert(a@ != b@) by {
            assert(a@.len() != b@.len());
        }
        return false;
    }
    let mut i: usize = 0;
    while i < a.len()
        invariant
            0 <= i <= a@.len(),
            a@.len() == b@.len(),
            forall|j: int| 0 <= j < i ==> a@[j] == b@[j],
        decreases a.len() - i,
    {
        if !cell_eq(a[i], b[i]) {
            return false;
        }
        i += 1;
    }
    proof {
        assert(a@ =~= b@);
    }
    true
}

/// Whether two key rows join with each other.
pub fn keys_match_exec(a: &Vec<Cell>, b: &Vec<Cell>, nulls_equal: bool) -> (r: bool)
    ensures
        r == keys_match(a@, b@, nulls_equal),
{
    if !key_rows_eq(a, b) {
        return false;
    }
    if nulls_equal {
        return true;
    }
    !key_is_null_exec(a)
}

/// The key row of one data row: the cells at the key column positions.
pub open spec fn key_of_row(row: Seq<Cell>, key_idxs: Seq<usize>) -> Seq<Cell> {
    key_idxs.map_values(|u: usize| row[u as int])
}

/// The key rows of a whole frame.
pub open spec fn keys_of_frame(rows: Seq<Seq<Cell>>, key_idxs: Seq<usize>) -> Seq<Seq<Cell>> {
    rows.map_values(|row: Seq<Cell>| key_of_row(row, key_idxs))
}

/// Projects every row of a frame onto the key columns, in row order.
pub fn select_keys(df: &Frame, key_idxs: &Vec<usize>) -> (r: Vec<Vec<Cell>>)
    requires
        df.wf(),
        forall|k: int| 0 <= k < key_idxs@.len() ==> (#[trigger] key_idxs@[k]) < df.names@.len(),
    ensures
        r@.len() == df.spec_height(),
        rows_view(r@) == keys_of_frame(rows_view(df.rows@), key_idxs@),
        forall|i: int| 0 <= i < r@.len() ==> (#[trigger] r@[i])@.len() == key_idxs@.len(),
{
    let mut r: Vec<Vec<Cell>> = Vec::new();
    let mut i: usize = 0;
    while i < df.rows.len()
        invariant
            0 <= i <= df.rows@.len(),
            df.wf(),
            forall|k: int| 0 <= k < key_idxs@.len() ==> (#[trigger] key_idxs@[k]) < df.names@.len(),
            r@.len() == i,
            forall|j: int|
                0 <= j < i ==> (#[trigger] r@[j])@ == key_of_row(rows_view(df.rows@)[j], key_idxs@),
        decreases df.rows.len() - i,
    {
        let key = gather_cells(&df.rows[i], key_idxs);
        proof {
            assert(key@ =~= key_of_row(rows_view(df.rows@)[i as int], key_idxs@));
        }
        r.push(key);
        i += 1;
    }
    proof {
        assert forall|j: int| 0 <= j < r@.len() implies rows_view(r@)[j] == keys_of_frame(
            rows_view(df.rows@),
            key_idxs@,
        )[j] by {
            assert(rows_view(r@)[j] == r@[j]@);
        }
        assert(rows_view(r@) =~= keys_of_frame(rows_view(df.rows@), key_idxs@));
        assert(forall|i2: int|
            0 <= i2 < r@.len() ==> (#[trigger] r@[i2])@.len() == key_idxs@.len());
    }
    r
}

/// The code of one cell, a value below the cell-code divisor.
pub open spec fn cell_code(c: Cell) -> int {
    match c {
        None => 0,
        Some(v) => 1 + (if v >= 0 {
            (v as int) % (CELL_CODE_MOD as int)
        } else {
            (-1 - (v as int)) % (CELL_CODE_MOD as int)
        }),
    }
}

/// The deterministic hash of a key row.
pub open spec fn spec_key_hash(k: Seq<Cell>) -> int
    decreases k.len(),
{
    if k.len() == 0 {
        7
    } else {
        (spec_key_hash(k.drop_last()) * 31 + cell_code(k.last())) % (KEY_HASH_MOD as int)
    }
}

/// The key hash stays below its divisor.
pub proof fn lemma_key_hash_bounds(k: Seq<Cell>)
    ensures
        0 <= spec_key_hash(k) < KEY_HASH_MOD as int,
    decreases k.len(),
{
    if k.len() > 0 {
        lemma_key_hash_bounds(k.drop_last());
    }
}

/// The code of one cell.
pub fn cell_code_exec(c: Cell) -> (r: u64)
    ensures
        r as int == cell_code(c),
        r <= CELL_CODE_MOD,
{
    match c {
        None => 0,
        Some(v) => {
            if v >= 0 {
                1 + (v % (CELL_CODE_MOD as i64)) as u64
            } else {
                let w = -1 - v;
                1 + (w % (CELL_CODE_MOD as i64)) as u64
            }
        },
    }
}

/// The deterministic hash of a key row.
pub fn key_hash(k: &Vec<Cell>) -> (r: u64)
    ensures
        r as int == spec_key_hash(k@),
        r < KEY_HASH_MOD,
{
    let mut h: u64 = 7;
    let mut i: usize = 0;
    proof {
        assert(k@.take(0) =~= Seq::<Cell>::empty());
    }
    while i < k.len()
        invariant
            0 <= i <= k@.len(),
            h as int == spec_key_hash(k@.take(i as int)),
            h < KEY_HASH_MOD,
        decreases k.len() - i,
    {
        let code = cell_code_exec(k[i]);
        proof {
            assert(k@.take(i + 1).drop_last() =~= k@.take(i as int));
            assert(k@.take(i + 1).last() == k@[i as int]);
        }
        h = (h * 31 + code) % KEY_HASH_MOD;
        i += 1;
    }
    proof {
        assert(k@.take(k@.len() as int) =~= k@);
    }
    h
}

/// The partition a key row is assigned to.
pub open spec fn partition_of(k: Seq<Cell>, num_partitions: int) -> int {
    spec_key_hash(k) % num_partitions
}

/// The partition a key row is assigned to.
pub fn partition_of_exec(k: &Vec<Cell>, num_partitions: usize) -> (r: usize)
    requires
        num_partitions > 0,
    ensures
        r as int == partition_of(k@, num_partitions as int),
        r < num_partitions,
{
    let h = key_hash(k);
    (h % (num_partitions as u64)) as usize
}

/// Keys that join land in the same partition: partition assignment is a pure
/// function of the key cells.
pub proof fn lemma_matching_keys_same_partition(
    a: Seq<Cell>,
    b: Seq<Cell>,
    nulls_equal: bool,
    num_partitions: int,
)
    requires
        keys_match(a, b, nulls_equal),
    ensures
        partition_of(a, num_partitions) == partition_of(b, num_partitions),
{
}

/// The row positions of one partition, in row order. A row participates when
/// its key is matchable, or also with a null key when nulls are tracked for
/// unmatched emission.
pub open spec fn partition_idxs(
    keys: Seq<Seq<Cell>>,
    p: int,
    num_partitions: int,
    include_nulls: bool,
    nulls_equal: bool,
) -> Seq<int>
    decreases keys.len(),
{
    if keys.len() == 0 {
        Seq::empty()
    } else {
        partition_idxs(keys.drop_last(), p, num_partitions, include_nulls, nulls_equal) + (if (
        include_nulls || !key_unmatchable(keys.last(), nulls_equal)) && partition_of(
            keys.last(),
            num_partitions,
        ) == p {
            seq![keys.len() - 1]
        } else {
            Seq::empty()
        })
    }
}

/// Every partition index points into the key list.
pub proof fn lemma_partition_idxs_in_range(
    keys: Seq<Seq<Cell>>,
    p: int,
    num_partitions: int,
    include_nulls: bool,
    nulls_equal: bool,
)
    ensures
        forall|t: int|
            0 <= t < partition_idxs(keys, p, num_partitions, include_nulls, nulls_equal).len()
                ==> 0 <= #[trigger] partition_idxs(
                keys,
                p,
                num_partitions,
                include_nulls,
                nulls_equal,
            )[t] < keys.len(),
    decreases keys.len(),
{
    if keys.len() > 0 {
        lemma_partition_idxs_in_range(
            keys.drop_last(),
            p,
            num_partitions,
            include_nulls,
            nulls_equal,
        );
        let w = partition_idxs(keys, p, num_partitions, include_nulls, nulls_equal);
        let q = partition_idxs(keys.drop_last(), p, num_partitions, include_nulls, nulls_equal);
        assert forall|t: int| 0 <= t < w.len() implies 0 <= #[trigger] w[t] < keys.len() by {
            if t < q.len() {
                assert(w[t] == q[t]);
            } else {
                assert(w[t] == keys.len() - 1);
            }
        }
    }
}

/// Every row listed for a partition belongs there: its key's partition is
/// the listed one, and it takes part under the inclusion rule.
pub proof fn lemma_partition_idxs_members(
    keys: Seq<Seq<Cell>>,
    p: int,
    num_partitions: int,
    include_nulls: bool,
    nulls_equal: bool,
)
    ensures
        forall|t: int|
            0 <= t < partition_idxs(keys, p, num_partitions, include_nulls, nulls_equal).len()
                ==> {
                let j = #[trigger] partition_idxs(
                    keys,
                    p,
                    num_partitions,
                    include_nulls,
                    nulls_equal,
                )[t];
                &&& 0 <= j < keys.len()
                &&& partition_of(keys[j], num_partitions) == p
                &&& include_nulls || !key_unmatchable(keys[j], nulls_equal)
            },
    decreases keys.len(),
{
    if keys.len() > 0 {
        lemma_partition_idxs_members(
            keys.drop_last(),
            p,
            num_partitions,
            include_nulls,
            nulls_equal,
        );
        let w = partition_idxs(keys, p, num_partitions, include_nulls, nulls_equal);
        let q = partition_idxs(keys.drop_last(), p, num_partitions, include_nulls, nulls_equal);
        assert forall|t: int| 0 <= t < w.len() implies {
            let j = #[trigger] w[t];
            &&& 0 <= j < keys.len()
            &&& partition_of(keys[j], num_partitions) == p
            &&& include_nulls || !key_unmatchable(keys[j], nulls_equal)
        } by {
            if t < q.len() {
                assert(w[t] == q[t]);
                assert(keys.drop_last()[q[t]] == keys[q[t]]);
            } else {
                assert(w[t] == keys.len() - 1);
            }
        }
    }
}

/// Distributes the rows of one key list over the partitions: for each
/// partition, the participating row positions in row order.
pub fn gen_partition_idxs(
    keys: &Vec<Vec<Cell>>,
    num_partitions: usize,
    include_nulls: bool,
    nulls_equal: bool,
) -> (r: Vec<Vec<usize>>)
    requires
        num_partitions > 0,
    ensures
        r@.len() == num_partitions,
        forall|p: int|
            0 <= p < num_partitions ==> (#[trigger] r@[p])@.map_values(|u: usize| u as int)
                == partition_idxs(
                rows_view(keys@),
                p,
                num_partitions as int,
                include_nulls,
                nulls_equal,
            ),
        forall|p: int, t: int|
            0 <= p < num_partitions && 0 <= t < r@[p]@.len() ==> (#[trigger] r@[p]@[t])
                < keys@.len(),
{
    let ghost kv = rows_view(keys@);
    let mut r: Vec<Vec<usize>> = Vec::new();
    let mut p: usize = 0;
    while p < num_partitions
        invariant
            0 <= p <= num_partitions,
            num_partitions > 0,
            kv == rows_view(keys@),
            r@.len() == p,
            forall|q: int|
                0 <= q < p ==> (#[trigger] r@[q])@.map_values(|u: usize| u as int)
                    == partition_idxs(kv, q, num_partitions as int, include_nulls, nulls_equal),
            forall|q: int, t: int|
                0 <= q < p && 0 <= t < r@[q]@.len() ==> (#[trigger] r@[q]@[t]) < keys@.len(),
        decreases num_partitions - p,
    {
        let mut bucket: Vec<usize> = Vec::new();
        let mut i: usize = 0;
        proof {
            assert(kv.take(0) =~= Seq::<Seq<Cell>>::empty());
        }
        while i < keys.len()
            invariant
                0 <= i <= keys@.len(),
                num_partitions > 0,
                p < num_partitions,
                kv == rows_view(keys@),
                bucket@.map_values(|u: usize| u as int) == partition_idxs(
                    kv.take(i as int),
                    p as int,
                    num_partitions as int,
                    include_nulls,
                    nulls_equal,
                ),
                forall|t: int| 0 <= t < bucket@.len() ==> (#[trigger] bucket@[t]) < i,
            decreases keys.len() - i,
        {
            proof {
                assert(kv.take(i + 1).drop_last() =~= kv.take(i as int));
                assert(kv.take(i + 1).last() == kv[i as int]);
            }
            let included = if include_nulls {
                true
            } else if nulls_equal {
                true
            } else {
                !key_is_null_exec(&keys[i])
            };
            if included && partition_of_exec(&keys[i], num_partitions) == p {
                bucket.push(i);
                assert(bucket@.map_values(|u: usize| u as int) =~= partition_idxs(
                    kv.take(i + 1),
                    p as int,
                    num_partitions as int,
                    include_nulls,
                    nulls_equal,
                ));
            } else {
                assert(bucket@.map_values(|u: usize| u as int) =~= partition_idxs(
                    kv.take(i + 1),
                    p as int,
                    num_partitions as int,
                    include_nulls,
                    nulls_equal,
                ));
            }
            i += 1;
        }
        proof {
            assert(kv.take(keys@.len() as int) =~= kv);
        }
        r.push(bucket);
        p += 1;
    }
    r
}

/// The number of distinct key rows in a list.
pub open spec fn distinct_keys(keys: Seq<Seq<Cell>>) -> nat {
    keys.to_set().len()
}

/// Counts the distinct key rows of a list, the model of the cardinality
/// sketch.
pub fn distinct_keys_exec(keys: &Vec<Vec<Cell>>) -> (r: usize)
    ensures
        r as nat == distinct_keys(rows_view(keys@)),
{
    let ghost kv = rows_view(keys@);
    let mut count: usize = 0;
    let mut i: usize = 0;
    proof {
        assert(kv.take(0) =~= Seq::<Seq<Cell>>::empty());
        assert(kv.take(0).to_set() =~= Set::<Seq<Cell>>::empty());
    }
    while i < keys.len()
        invariant
            0 <= i <= keys@.len(),
            kv == rows_view(keys@),
            count as nat == kv.take(i as int).to_set().len(),
            count <= i,
        decreases keys.len() - i,
    {
        let mut seen = false;
        let mut j: usize = 0;
        while j < i
            invariant
                0 <= j <= i,
                i < keys@.len(),
                kv == rows_view(keys@),
                seen == exists|t: int| 0 <= t < j && kv[t] == kv[i as int],
            decreases i - j,
        {
            let eq = key_rows_eq(&keys[j], &keys[i]);
            proof {
                assert(kv[j as int] == keys@[j as int]@);
                assert(kv[i as int] == keys@[i as int]@);
            }
            if eq {
                seen = true;
                assert(kv[j as int] == kv[i as int]);
            }
            j += 1;
        }
        proof {
            let prefix = kv.take(i as int);
            let next = kv.take(i + 1);
            assert(next =~= prefix.push(kv[i as int]));
            broadcast use vstd::seq_lib::group_seq_properties;
            assert(next.to_set() =~= prefix.to_set().insert(kv[i as int]));
            assert(seen == prefix.contains(kv[i as int])) by {
                if seen {
                    assert(prefix.contains(kv[i as int]));
                }
                if prefix.contains(kv[i as int]) {
                    let t = choose|t: int| 0 <= t < i && prefix[t] == kv[i as int];
                    assert(kv[t] == kv[i as int]);
                }
            }
            if seen {
                assert(prefix.to_set().contains(kv[i as int]));
                assert(next.to_set() =~= prefix.to_set());
            } else {
                assert(!prefix.to_set().contains(kv[i as int]));
                vstd::set::axiom_set_insert_len(prefix.to_set(), kv[i as int]);
            }
        }
        if !seen {
            assert(count < keys@.len());
            count += 1;
        }
        i += 1;
    }
    proof {
        assert(kv.take(keys@.len() as int) =~= kv);
    }
    count
}

} // verus!
