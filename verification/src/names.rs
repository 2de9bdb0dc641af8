//! Column names as byte vectors, schemas as ordered name lists.
//!
//! The operator renames payload columns and reserves a family of placeholder
//! names, one per key column index, used to merge key columns after a full
//! join with coalescing.

use vstd::prelude::*;

verus! {

/// Equality of two byte names.
pub fn bytes_eq(a: &Vec<u8>, b: &Vec<u8>) -> (r: bool)
    ensures
        r == (a@ == b@),
{
    if a.len() != b.len() {
        assert(a@ != b@) by {
            assert(a@.len() != b@.len());
        }
        return false;
    }
    let mut i: usize = 0;
    while i < a.len()
        invariant
            0 <= i <= a.len(),
            a@.len() == b@.len(),
            forall|j: int| 0 <= j < i ==> a@[j] == b@[j],
        decreases a.len() - i,
    {
        if a[i] != b[i] {
            return false;
        }
        i += 1;
    }
    proof {
        assert(a@ =~= b@);
    }
    true
}

/// The mathematical view of a list of names: each name as a byte sequence.
pub open spec fn names_view(s: Seq<Vec<u8>>) -> Seq<Seq<u8>> {
    s.map_values(|n: Vec<u8>| n@)
}

/// Whether a schema holds a name.
pub fn schema_contains(schema: &Vec<Vec<u8>>, name: &Vec<u8>) -> (r: bool)
    ensures
        r == names_view(schema@).contains(name@),
{
    let mut i: usize = 0;
    while i < schema.len()
        invariant
            0 <= i <= schema.len(),
            forall|j: int| 0 <= j < i ==> names_view(schema@)[j] != name@,
        decreases schema.len() - i,
    {
        if bytes_eq(&schema[i], name) {
            assert(names_view(schema@)[i as int] == name@);
            return true;
        }
        i += 1;
    }
    false
}

/// An explicit copy of a byte name.
pub fn copy_bytes(v: &Vec<u8>) -> (r: Vec<u8>)
    ensures
        r@ == v@,
{
    let mut r: Vec<u8> = Vec::new();
    let mut i: usize = 0;
    while i < v.len()
        invariant
            0 <= i <= v.len(),
            r@ == v@.take(i as int),
        decreases v.len() - i,
    {
        r.push(v[i]);
        assert(r@ =~= v@.take(i + 1 as int));
        i += 1;
    }
    assert(r@ =~= v@);
    r
}

/// An explicit copy of a name list; the views of the names are kept.
pub fn copy_names(v: &Vec<Vec<u8>>) -> (r: Vec<Vec<u8>>)
    ensures
        r@.len() == v@.len(),
        names_view(r@) == names_view(v@),
{
    let mut r: Vec<Vec<u8>> = Vec::new();
    let mut i: usize = 0;
    while i < v.len()
        invariant
            0 <= i <= v.len(),
            r@.len() == i,
            forall|j: int| 0 <= j < i ==> names_view(r@)[j] == names_view(v@)[j],
        decreases v.len() - i,
    {
        r.push(copy_bytes(&v[i]));
        i += 1;
    }
    assert(names_view(r@) =~= names_view(v@));
    r
}

/// Concatenation of two byte names.
pub fn concat_bytes(a: &Vec<u8>, b: &Vec<u8>) -> (r: Vec<u8>)
    ensures
        r@ == a@ + b@,
{
    let mut r: Vec<u8> = Vec::new();
    let mut i: usize = 0;
    while i < a.len()
        invariant
            0 <= i <= a.len(),
            r@ == a@.take(i as int),
        decreases a.len() - i,
    {
        r.push(a[i]);
        assert(r@ =~= a@.take(i + 1 as int));
        i += 1;
    }
    assert(r@ =~= a@);
    let mut j: usize = 0;
    while j < b.len()
        invariant
            0 <= j <= b.len(),
            r@ == a@ + b@.take(j as int),
        decreases b.len() - j,
    {
        r.push(b[j]);
        assert(r@ =~= a@ + b@.take(j + 1 as int));
        j += 1;
    }
    assert(r@ =~= a@ + b@);
    r
}

/// Concatenation of two name lists.
pub fn concat_name_lists(a: &Vec<Vec<u8>>, b: &Vec<Vec<u8>>) -> (r: Vec<Vec<u8>>)
    ensures
        r@.len() == a@.len() + b@.len(),
        names_view(r@) == names_view(a@) + names_view(b@),
{
    let mut r = copy_names(a);
    let ghost half = r@;
    let mut j: usize = 0;
    while j < b.len()
        invariant
            0 <= j <= b@.len(),
            r@.len() == a@.len() + j,
            names_view(r@).len() == r@.len(),
            forall|k: int| 0 <= k < a@.len() ==> names_view(r@)[k] == names_view(a@)[k],
            forall|k: int|
                0 <= k < j ==> names_view(r@)[a@.len() + k] == names_view(b@)[k],
        decreases b.len() - j,
    {
        let ghost r_snap = r@;
        r.push(copy_bytes(&b[j]));
        proof {
            assert(r@ == r_snap.push(r@.last()));
            assert forall|k: int| 0 <= k < r_snap.len() implies names_view(r@)[k] == names_view(
                r_snap,
            )[k] by {
                assert(r@[k] == r_snap[k]);
            }
            assert(names_view(r@)[r_snap.len() as int] == r@.last()@);
        }
        j += 1;
    }
    proof {
        assert(names_view(r@) =~= names_view(a@) + names_view(b@));
    }
    r
}

/// Decimal digits of a number, most significant first.
pub open spec fn spec_digits(n: nat) -> Seq<u8>
    decreases n,
{
    if n < 10 {
        seq![(48 + n) as u8]
    } else {
        spec_digits(n / 10).push((48 + n % 10) as u8)
    }
}

/// Renders a number in decimal.
pub fn digits_of(n: usize) -> (r: Vec<u8>)
    ensures
        r@ == spec_digits(n as nat),
    decreases n,
{
    if n < 10 {
        let mut v: Vec<u8> = Vec::new();
        v.push(48 + n as u8);
        assert(v@ =~= spec_digits(n as nat));
        v
    } else {
        let mut v = digits_of(n / 10);
        v.push(48 + (n % 10) as u8);
        v
    }
}

/// The reserved name prefix of the key-coalescing placeholder columns.
pub open spec fn coalesce_prefix() -> Seq<u8> {
    seq![
        95u8, 95u8, 67u8, 79u8, 65u8, 76u8, 69u8, 83u8, 67u8, 69u8, 95u8, 75u8, 69u8, 89u8, 67u8,
        79u8, 76u8,
    ]
}

/// The reserved placeholder name for the key column at a given index.
pub open spec fn spec_placeholder(i: nat) -> Seq<u8> {
    coalesce_prefix() + spec_digits(i)
}

/// Builds the reserved prefix, `"__COALESCE_KEYCOL"` in ASCII.
pub fn coalesce_prefix_bytes() -> (r: Vec<u8>)
    ensures
        r@ == coalesce_prefix(),
{
    let v: Vec<u8> = vec![
        95u8, 95u8, 67u8, 79u8, 65u8, 76u8, 69u8, 83u8, 67u8, 69u8, 95u8, 75u8, 69u8, 89u8, 67u8,
        79u8, 76u8,
    ];
    proof {
        assert(v@ =~= coalesce_prefix());
    }
    v
}

/// Builds the placeholder name for the key column at a given index.
pub fn placeholder_name(i: usize) -> (r: Vec<u8>)
    ensures
        r@ == spec_placeholder(i as nat),
{
    let prefix = coalesce_prefix_bytes();
    let digits = digits_of(i);
    concat_bytes(&prefix, &digits)
}

/// Whether a name starts with the reserved coalescing prefix.
pub fn has_coalesce_prefix(name: &Vec<u8>) -> (r: bool)
    ensures
        r == (name@.len() >= coalesce_prefix().len() && name@.take(coalesce_prefix().len() as int)
            == coalesce_prefix()),
{
    let prefix = coalesce_prefix_bytes();
    if name.len() < prefix.len() {
        return false;
    }
    let mut i: usize = 0;
    while i < prefix.len()
        invariant
            0 <= i <= prefix.len(),
            prefix@ == coalesce_prefix(),
            name@.len() >= prefix@.len(),
            forall|j: int| 0 <= j < i ==> name@[j] == prefix@[j],
        decreases prefix.len() - i,
    {
        if name[i] != prefix[i] {
            assert(name@.take(coalesce_prefix().len() as int)[i as int] != coalesce_prefix()[i as int]);
            return false;
        }
        i += 1;
    }
    proof {
        assert(name@.take(coalesce_prefix().len() as int) =~= coalesce_prefix());
    }
    true
}

} // verus!
