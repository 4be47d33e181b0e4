//! Lists and tables from functions of their places.

use vstd::prelude::*;

verus! {

/// The list of `n` items whose item `i` is `want(i)`.
pub(crate) fn list_of<T, E: Fn(usize) -> T>(
    n: usize,
    item: &E,
    Ghost(want): Ghost<spec_fn(int) -> T>,
) -> (r: Vec<T>)
    requires
        forall|i: usize| i < n ==> #[trigger] call_requires(*item, (i,)),
        forall|i: usize, v: T|
            i < n && #[trigger] call_ensures(*item, (i,), v) ==> v == want(i as int),
    ensures
        r@ == Seq::new(n as nat, want),
{
    let mut out: Vec<T> = Vec::new();
    let mut i: usize = 0;
    while i < n
        invariant
            i <= n,
            out@ == Seq::new(i as nat, want),
            forall|i: usize| i < n ==> #[trigger] call_requires(*item, (i,)),
            forall|i: usize, v: T|
                i < n && #[trigger] call_ensures(*item, (i,), v) ==> v == want(i as int),
        decreases n - i,
    {
        out.push(item(i));
        assert(out@ =~= Seq::new((i + 1) as nat, want));
        i += 1;
    }
    out
}

/// The rows of a table.
pub open spec fn rows_of<T>(v: Seq<Vec<T>>) -> Seq<Seq<T>> {
    Seq::new(v.len(), |i: int| v[i]@)
}

/// The table with `rows` rows of `cols` items each whose item in row `i` and column `j` is
/// `want(i, j)`.
pub open spec fn grid<T>(rows: int, cols: int, want: spec_fn(int, int) -> T) -> Seq<Seq<T>> {
    Seq::new(rows as nat, |i: int| Seq::new(cols as nat, |j: int| want(i, j)))
}

/// The table from a function of its rows and columns.
pub(crate) fn grid_of<T, E: Fn(usize, usize) -> T>(
    rows: usize,
    cols: usize,
    item: &E,
    Ghost(want): Ghost<spec_fn(int, int) -> T>,
) -> (r: Vec<Vec<T>>)
    requires
        forall|i: usize, j: usize|
            i < rows && j < cols ==> #[trigger] call_requires(*item, (i, j)),
        forall|i: usize, j: usize, v: T|
            i < rows && j < cols && #[trigger] call_ensures(*item, (i, j), v) ==> v == want(
                i as int,
                j as int,
            ),
    ensures
        rows_of(r@) == grid(rows as int, cols as int, want),
{
    let mut out: Vec<Vec<T>> = Vec::new();
    let mut i: usize = 0;
    while i < rows
        invariant
            i <= rows,
            out@.len() == i,
            forall|k: int|
                0 <= k < i ==> (#[trigger] out@[k])@ == Seq::new(cols as nat, |j: int| want(k, j)),
            forall|i: usize, j: usize|
                i < rows && j < cols ==> #[trigger] call_requires(*item, (i, j)),
            forall|i: usize, j: usize, v: T|
                i < rows && j < cols && #[trigger] call_ensures(*item, (i, j), v) ==> v == want(
                    i as int,
                    j as int,
                ),
        decreases rows - i,
    {
        let mut row: Vec<T> = Vec::new();
        let mut j: usize = 0;
        while j < cols
            invariant
                i < rows,
                j <= cols,
                row@ == Seq::new(j as nat, |k: int| want(i as int, k)),
                forall|i: usize, j: usize|
                    i < rows && j < cols ==> #[trigger] call_requires(*item, (i, j)),
                forall|i: usize, j: usize, v: T|
                    i < rows && j < cols && #[trigger] call_ensures(*item, (i, j), v) ==> v
                        == want(i as int, j as int),
            decreases cols - j,
        {
            row.push(item(i, j));
            assert(row@ =~= Seq::new((j + 1) as nat, |k: int| want(i as int, k)));
            j += 1;
        }
        out.push(row);
        i += 1;
    }
    assert(rows_of(out@) =~= grid(rows as int, cols as int, want));
    out
}

} // verus!
