//! Square tables held as vectors of rows, and their integer views.

use vstd::prelude::*;

verus! {

/// The table of integers that `rows` holds.
pub open spec fn table_of(rows: Vec<Vec<i32>>) -> Seq<Seq<int>> {
    Seq::new(rows.len() as nat, |a: int| Seq::new(rows[a].len() as nat, |b: int| rows[a][b] as int))
}

/// The table of factory ids that `rows` holds.
pub open spec fn hops_of(rows: Vec<Vec<usize>>) -> Seq<Seq<int>> {
    Seq::new(rows.len() as nat, |a: int| Seq::new(rows[a].len() as nat, |b: int| rows[a][b] as int))
}

/// The integers that `cells` holds.
pub open spec fn scores_of(cells: Vec<i32>) -> Seq<int> {
    Seq::new(cells.len() as nat, |x: int| cells[x] as int)
}

/// `rows` has `n` rows of `n` cells.
pub open spec fn is_square<T>(rows: Vec<Vec<T>>, n: int) -> bool {
    &&& rows.len() == n
    &&& forall|x: int| 0 <= x < n ==> (#[trigger] rows[x]).len() == n
}

/// A table of `n` rows of `n` cells that all hold `value`.
pub fn square_table<T: Copy>(n: usize, value: T) -> (rows: Vec<Vec<T>>)
    ensures
        is_square(rows, n as int),
        forall|x: int, y: int| 0 <= x < n && 0 <= y < n ==> #[trigger] rows[x][y] == value,
{
    let mut rows: Vec<Vec<T>> = Vec::new();
    let mut a: usize = 0;
    while a < n
        invariant
            a <= n,
            rows.len() == a,
            forall|x: int| 0 <= x < a ==> (#[trigger] rows[x]).len() == n,
            forall|x: int, y: int| 0 <= x < a && 0 <= y < n ==> #[trigger] rows[x][y] == value,
        decreases n - a,
    {
        let mut row: Vec<T> = Vec::new();
        let mut b: usize = 0;
        while b < n
            invariant
                b <= n,
                row.len() == b,
                forall|y: int| 0 <= y < b ==> #[trigger] row[y] == value,
            decreases n - b,
        {
            row.push(value);
            b += 1;
        }
        rows.push(row);
        a += 1;
    }
    rows
}

/// Writes `forward` at `[a][b]` and `backward` at `[b][a]` of a square table.
pub fn write_pair<T: Copy>(table: &mut Vec<Vec<T>>, a: usize, b: usize, forward: T, backward: T)
    requires
        is_square(*old(table), old(table).len() as int),
        a < old(table).len(),
        b < old(table).len(),
        a != b,
    ensures
        is_square(*final(table), old(table).len() as int),
        forall|x: int, y: int|
            0 <= x < old(table).len() && 0 <= y < old(table).len() ==> #[trigger] final(table)[x][y]
                == (if x == a && y == b {
                forward
            } else if x == b && y == a {
                backward
            } else {
                old(table)[x][y]
            }),
{
    table[a][b] = forward;
    table[b][a] = backward;
}

} // verus!
