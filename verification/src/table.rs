//! Square tables with one entry per cell of the board, used as working
//! storage by the searches.

use vstd::prelude::*;
use crate::common::{on_board, FIELD_SIZE};

verus! {

/// The table has one row per board row and one entry per cell.
pub open spec fn table_shaped<T>(t: Vec<Vec<T>>) -> bool {
    &&& t@.len() == FIELD_SIZE
    &&& forall|r: int| 0 <= r < FIELD_SIZE ==> (#[trigger] t@[r])@.len() == FIELD_SIZE
}

/// The entry that the table holds for the cell at `pos`.
pub open spec fn table_at<T>(t: Vec<Vec<T>>, pos: (usize, usize)) -> T {
    t@[pos.0 as int]@[pos.1 as int]
}

/// A table that holds `fill` for every cell.
pub fn table_new<T: Copy>(fill: T) -> (t: Vec<Vec<T>>)
    ensures
        table_shaped(t),
        forall|pos: (usize, usize)| on_board(pos) ==> #[trigger] table_at(t, pos) == fill,
{
    let mut t: Vec<Vec<T>> = Vec::new();
    let mut r: usize = 0;
    while r < FIELD_SIZE
        invariant
            r <= FIELD_SIZE,
            t@.len() == r,
            forall|i: int| 0 <= i < r ==> (#[trigger] t@[i])@.len() == FIELD_SIZE,
            forall|i: int, j: int| 0 <= i < r && 0 <= j < FIELD_SIZE ==> (#[trigger] t@[i]@[j]) == fill,
        decreases FIELD_SIZE - r,
    {
        let mut row: Vec<T> = Vec::new();
        let mut c: usize = 0;
        while c < FIELD_SIZE
            invariant
                c <= FIELD_SIZE,
                row@.len() == c,
                forall|j: int| 0 <= j < c ==> (#[trigger] row@[j]) == fill,
            decreases FIELD_SIZE - c,
        {
            row.push(fill);
            c = c + 1;
        }
        t.push(row);
        r = r + 1;
    }
    t
}

/// Reads the entry for the cell at `pos`.
pub fn table_get<T: Copy>(t: &Vec<Vec<T>>, pos: (usize, usize)) -> (x: T)
    requires
        table_shaped(*t),
        on_board(pos),
    ensures
        x == table_at(*t, pos),
{
    t[pos.0][pos.1]
}

/// Replaces the entry for the cell at `pos` and leaves every other entry as it is.
pub fn table_store<T>(t: &mut Vec<Vec<T>>, pos: (usize, usize), x: T)
    requires
        table_shaped(*old(t)),
        on_board(pos),
    ensures
        table_shaped(*final(t)),
        table_at(*final(t), pos) == x,
        forall|q: (usize, usize)|
            on_board(q) && q != pos ==> #[trigger] table_at(*final(t), q) == table_at(*old(t), q),
{
    t[pos.0][pos.1] = x;
}

} // verus!
