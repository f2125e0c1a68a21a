//! Levenshtein distance between two byte sequences.

use vstd::prelude::*;
use vstd::string::StringSliceAdditionalSpecFns;

verus! {

/// The smallest of three natural numbers.
pub open spec fn min3(x: nat, y: nat, z: nat) -> nat {
    if x <= y && x <= z {
        x
    } else if y <= z {
        y
    } else {
        z
    }
}

/// What it costs to turn byte `x` into byte `y`: nothing when they agree,
/// one substitution when they differ.
pub open spec fn substitution_cost(x: u8, y: u8) -> nat {
    if x == y {
        0
    } else {
        1
    }
}

/// The Levenshtein distance: the least number of single-byte insertions,
/// deletions and substitutions that turn `a` into `b`.
///
/// Against an empty sequence the distance is the length of the other one.
/// Otherwise the last step of a cheapest edit either inserts the last byte of
/// `b`, deletes the last byte of `a`, or lines the two last bytes up.
pub open spec fn edit_distance(a: Seq<u8>, b: Seq<u8>) -> nat
    decreases a.len() + b.len(),
{
    if a.len() == 0 {
        b.len()
    } else if b.len() == 0 {
        a.len()
    } else {
        min3(
            edit_distance(a, b.drop_last()) + 1,
            edit_distance(a.drop_last(), b) + 1,
            edit_distance(a.drop_last(), b.drop_last()) + substitution_cost(a.last(), b.last()),
        )
    }
}

/// The distance never exceeds the length of the longer sequence.
pub proof fn lemma_edit_distance_upper_bound(a: Seq<u8>, b: Seq<u8>)
    ensures
        edit_distance(a, b) <= a.len() || edit_distance(a, b) <= b.len(),
        a.len() <= b.len() ==> edit_distance(a, b) <= b.len(),
        b.len() <= a.len() ==> edit_distance(a, b) <= a.len(),
    decreases a.len() + b.len(),
{
    if a.len() > 0 && b.len() > 0 {
        lemma_edit_distance_upper_bound(a.drop_last(), b.drop_last());
    }
}

/// The distance is at least the difference between the two lengths.
pub proof fn lemma_edit_distance_lower_bound(a: Seq<u8>, b: Seq<u8>)
    ensures
        a.len() <= edit_distance(a, b) + b.len(),
        b.len() <= edit_distance(a, b) + a.len(),
    decreases a.len() + b.len(),
{
    if a.len() > 0 && b.len() > 0 {
        lemma_edit_distance_lower_bound(a, b.drop_last());
        lemma_edit_distance_lower_bound(a.drop_last(), b);
        lemma_edit_distance_lower_bound(a.drop_last(), b.drop_last());
    }
}

/// Identity: every sequence is at distance zero from itself.
pub proof fn lemma_edit_distance_self(a: Seq<u8>)
    ensures
        edit_distance(a, a) == 0,
    decreases a.len(),
{
    if a.len() > 0 {
        lemma_edit_distance_self(a.drop_last());
    }
}

/// Only a sequence itself is at distance zero from it.
pub proof fn lemma_edit_distance_zero(a: Seq<u8>, b: Seq<u8>)
    requires
        edit_distance(a, b) == 0,
    ensures
        a == b,
    decreases a.len() + b.len(),
{
    if a.len() > 0 && b.len() > 0 {
        lemma_edit_distance_zero(a.drop_last(), b.drop_last());
        assert(a =~= a.drop_last().push(a.last()));
        assert(b =~= b.drop_last().push(b.last()));
    } else {
        assert(a =~= b);
    }
}

/// Symmetry: turning `a` into `b` costs as much as turning `b` into `a`.
pub proof fn lemma_edit_distance_symmetric(a: Seq<u8>, b: Seq<u8>)
    ensures
        edit_distance(a, b) == edit_distance(b, a),
    decreases a.len() + b.len(),
{
    if a.len() > 0 && b.len() > 0 {
        lemma_edit_distance_symmetric(a, b.drop_last());
        lemma_edit_distance_symmetric(a.drop_last(), b);
        lemma_edit_distance_symmetric(a.drop_last(), b.drop_last());
    }
}

/// Triangle inequality: going from `a` to `c` directly never costs more than
/// going through `b`.
pub proof fn lemma_edit_distance_triangle(a: Seq<u8>, b: Seq<u8>, c: Seq<u8>)
    ensures
        edit_distance(a, c) <= edit_distance(a, b) + edit_distance(b, c),
    decreases a.len() + b.len() + c.len(),
{
    if a.len() == 0 {
        lemma_edit_distance_lower_bound(b, c);
    } else if c.len() == 0 {
        lemma_edit_distance_lower_bound(a, b);
    } else if b.len() == 0 {
        lemma_edit_distance_upper_bound(a, c);
    } else {
        let a1 = a.drop_last();
        let b1 = b.drop_last();
        let c1 = c.drop_last();
        // Whatever the last step from `a` to `b` and from `b` to `c` is,
        // a path from `a` to `c` of the same cost goes through shorter prefixes.
        lemma_edit_distance_triangle(a1, b, c);
        lemma_edit_distance_triangle(a, b, c1);
        lemma_edit_distance_triangle(a, b1, c);
        lemma_edit_distance_triangle(a, b1, c1);
        lemma_edit_distance_triangle(a1, b1, c);
        lemma_edit_distance_triangle(a1, b1, c1);
    }
}

/// One row of the distance table: the distances from the first `i` bytes of
/// `a` to every prefix of `b`.
pub open spec fn is_table_row(row: Seq<usize>, a: Seq<u8>, b: Seq<u8>, i: int) -> bool {
    &&& row.len() == b.len() + 1
    &&& forall|j: int|
        0 <= j <= b.len() ==> #[trigger] row[j] == edit_distance(a.take(i), b.take(j))
}

/// The index values `0, 1, ..., len`: the first row and the first column of
/// the table, since the distance between an empty sequence and a sequence of
/// `k` bytes is `k`.
fn index_values(len: usize) -> (values: Vec<usize>)
    ensures
        values@.len() == len + 1,
        forall|k: int| 0 <= k <= len ==> #[trigger] values@[k] == k,
{
    let mut values: Vec<usize> = Vec::new();
    let mut k: usize = 0;
    while k < len
        invariant
            k <= len,
            values@.len() == k,
            forall|x: int| 0 <= x < k ==> #[trigger] values@[x] == x,
        decreases len - k,
    {
        values.push(k);
        k += 1;
    }
    values.push(len);
    values
}

/// The row that follows `above` in the table: the distances from the first
/// `i` bytes of `a`. It starts with `first`, the cell of column 0, and is
/// computed cell by cell from the row above and from the cell to the left.
fn next_row(a: &[u8], b: &[u8], above: &Vec<usize>, i: usize, first: usize) -> (row: Vec<usize>)
    requires
        1 <= i <= a@.len() < usize::MAX,
        first == i,
        is_table_row(above@, a@, b@, i - 1),
    ensures
        is_table_row(row@, a@, b@, i as int),
{
    let n = b.len();
    assert(n + 1 == above.len());
    let mut row: Vec<usize> = Vec::new();
    row.push(first);
    assert(a@.take(i as int).len() == i);
    assert(b@.take(0).len() == 0);
    let mut j: usize = 1;
    while j <= n
        invariant
            1 <= j <= n + 1,
            n == b@.len(),
            n + 1 <= usize::MAX,
            1 <= i <= a@.len() < usize::MAX,
            is_table_row(above@, a@, b@, i - 1),
            row@.len() == j,
            forall|k: int| 0 <= k < j ==> #[trigger] row@[k] == edit_distance(
                a@.take(i as int),
                b@.take(k),
            ),
        decreases n + 1 - j,
    {
        let ghost pa = a@.take(i as int);
        let ghost pb = b@.take(j as int);
        proof {
            assert(pa.drop_last() =~= a@.take(i - 1));
            assert(pb.drop_last() =~= b@.take(j - 1));
            assert(pa.last() == a@[i - 1]);
            assert(pb.last() == b@[j - 1]);
            lemma_edit_distance_upper_bound(pa, pb.drop_last());
            lemma_edit_distance_upper_bound(pa.drop_last(), pb);
            lemma_edit_distance_upper_bound(pa.drop_last(), pb.drop_last());
            assert(above@[j as int] == edit_distance(a@.take(i - 1), b@.take(j as int)));
            assert(above@[j - 1] == edit_distance(a@.take(i - 1), b@.take(j - 1)));
            assert(row@[j - 1] == edit_distance(pa, b@.take(j - 1)));
        }
        let cost: usize = if a[i - 1] == b[j - 1] {
            0
        } else {
            1
        };
        let insert: usize = row[j - 1] + 1;
        let delete: usize = above[j] + 1;
        let substitute: usize = above[j - 1] + cost;
        let mut best: usize = insert;
        if delete < best {
            best = delete;
        }
        if substitute < best {
            best = substitute;
        }
        assert(best == edit_distance(pa, pb));
        row.push(best);
        j += 1;
    }
    row
}

/// Computes the Levenshtein distance between two byte slices by filling the
/// table of distances between their prefixes, row by row. Row 0 and column 0
/// hold the index values; every other cell is the least of the cell to the
/// left plus one, the cell above plus one, and the cell diagonally above plus
/// the substitution cost.
pub fn distance_of_bytes(a: &[u8], b: &[u8]) -> (distance: usize)
    ensures
        distance == edit_distance(a@, b@),
{
    let m = a.len();
    let n = b.len();
    let column = index_values(m);
    let top = index_values(n);
    assert(column.len() == m + 1);
    assert forall|j: int| 0 <= j <= n implies #[trigger] top@[j] == edit_distance(
        a@.take(0),
        b@.take(j),
    ) by {
        assert(a@.take(0).len() == 0);
        assert(b@.take(j).len() == j);
    }
    let mut distances: Vec<Vec<usize>> = Vec::new();
    distances.push(top);
    let mut i: usize = 1;
    while i <= m
        invariant
            1 <= i <= m + 1,
            m == a@.len(),
            n == b@.len(),
            m < usize::MAX,
            column@.len() == m + 1,
            forall|k: int| 0 <= k <= m ==> #[trigger] column@[k] == k,
            distances@.len() == i,
            forall|r: int| 0 <= r < i ==> is_table_row(#[trigger] distances@[r]@, a@, b@, r),
        decreases m + 1 - i,
    {
        let row = next_row(a, b, &distances[i - 1], i, column[i]);
        distances.push(row);
        i += 1;
    }
    assert(a@.take(m as int) =~= a@);
    assert(b@.take(n as int) =~= b@);
    distances[m][n]
}

/// Computes the Levenshtein distance between two strings, byte for byte:
/// letters that differ only in case differ, and a character of several bytes
/// counts once for each byte that has to change.
pub fn levenshtein_distance(a: &str, b: &str) -> (distance: usize)
    ensures
        distance == edit_distance(a.spec_bytes(), b.spec_bytes()),
{
    distance_of_bytes(a.as_bytes(), b.as_bytes())
}

} // verus!
