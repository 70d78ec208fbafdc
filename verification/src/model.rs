//! The mathematical model of the counter table: a grid of counters, one
//! sequence per row, and what each operation makes of it.

use crate::index::bucket;
use vstd::prelude::*;

verus! {

/// `g` has `depth` rows of `width` counters each.
pub open spec fn grid_shape(g: Seq<Seq<u64>>, width: nat, depth: nat) -> bool {
    &&& g.len() == depth
    &&& forall|r: int| 0 <= r < depth ==> (#[trigger] g[r]).len() == width
}

/// The grid of a fresh table: every counter is zero.
pub open spec fn zero_grid(width: nat, depth: nat) -> Seq<Seq<u64>> {
    Seq::new(depth, |r: int| Seq::new(width, |c: int| 0u64))
}

/// The counter that the item with primary hash `h1` occupies in row `r`.
pub open spec fn cell_of(g: Seq<Seq<u64>>, h1: u64, width: nat, r: int) -> u64 {
    g[r][bucket(h1, r as nat, width) as int]
}

/// The grid after one increment of the item with primary hash `h1`: in every
/// row the item's counter goes up by one, unless it is at its maximum.
pub open spec fn incremented(g: Seq<Seq<u64>>, h1: u64, width: nat) -> Seq<Seq<u64>> {
    Seq::new(
        g.len(),
        |r: int|
            g[r].update(
                bucket(h1, r as nat, width) as int,
                cell_of(g, h1, width, r).saturating_add(1),
            ),
    )
}

/// The smallest of the item's counters in the first `rows` rows, and
/// `u64::MAX` over no rows.
pub open spec fn min_cell(g: Seq<Seq<u64>>, h1: u64, width: nat, rows: nat) -> u64
    decreases rows,
{
    if rows == 0 {
        u64::MAX
    } else {
        let rest = min_cell(g, h1, width, (rows - 1) as nat);
        let here = cell_of(g, h1, width, rows - 1);
        if here < rest {
            here
        } else {
            rest
        }
    }
}

/// The estimate for the item with primary hash `h1`: the smallest of its
/// counters over all rows.
pub open spec fn estimated(g: Seq<Seq<u64>>, h1: u64, width: nat) -> u64 {
    min_cell(g, h1, width, g.len())
}

/// The cell-by-cell saturating sum of two grids of one shape.
pub open spec fn merged(a: Seq<Seq<u64>>, b: Seq<Seq<u64>>) -> Seq<Seq<u64>> {
    Seq::new(a.len(), |r: int| Seq::new(a[r].len(), |c: int| a[r][c].saturating_add(b[r][c])))
}

/// The distance between two counters.
pub open spec fn gap(x: u64, y: u64) -> nat {
    if x >= y {
        (x - y) as nat
    } else {
        (y - x) as nat
    }
}

/// The sum of the distances between the first `n` counters of two rows.
pub open spec fn row_l1(a: Seq<u64>, b: Seq<u64>, n: nat) -> nat
    decreases n,
{
    if n == 0 {
        0
    } else {
        row_l1(a, b, (n - 1) as nat) + gap(a[n - 1], b[n - 1])
    }
}

/// The smallest row distance over the first `rows` rows, and `u64::MAX` where
/// none is smaller.
pub open spec fn min_row_l1(a: Seq<Seq<u64>>, b: Seq<Seq<u64>>, rows: nat) -> nat
    decreases rows,
{
    if rows == 0 {
        u64::MAX as nat
    } else {
        let rest = min_row_l1(a, b, (rows - 1) as nat);
        let here = row_l1(a[rows - 1], b[rows - 1], a[rows - 1].len());
        if here < rest {
            here
        } else {
            rest
        }
    }
}

/// The L1 distance between two grids of one shape: the smallest row distance,
/// capped at `u64::MAX`.
pub open spec fn l1_of(a: Seq<Seq<u64>>, b: Seq<Seq<u64>>) -> nat {
    min_row_l1(a, b, a.len())
}

/// The grid after the items with primary hashes `hs` were incremented in
/// turn, starting from `g`.
pub open spec fn after_increments(g: Seq<Seq<u64>>, hs: Seq<u64>, width: nat) -> Seq<Seq<u64>>
    decreases hs.len(),
{
    if hs.len() == 0 {
        g
    } else {
        incremented(after_increments(g, hs.drop_last(), width), hs.last(), width)
    }
}

/// How often `h` occurs in `hs`.
pub open spec fn occurrences(hs: Seq<u64>, h: u64) -> nat
    decreases hs.len(),
{
    if hs.len() == 0 {
        0
    } else {
        occurrences(hs.drop_last(), h) + if hs.last() == h {
            1nat
        } else {
            0nat
        }
    }
}

/// `n`, capped at the largest value a counter can hold.
pub open spec fn capped(n: int) -> u64 {
    if n >= u64::MAX {
        u64::MAX
    } else {
        n as u64
    }
}

} // verus!
