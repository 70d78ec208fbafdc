//! What holds of the model whatever the items and their hashes are.

use crate::hashing::keyed_hash;
use crate::index::lemma_bucket_in_row;
use crate::model::{
    after_increments, capped, cell_of, estimated, grid_shape, incremented, l1_of, merged, min_cell,
    min_row_l1, occurrences, row_l1, zero_grid,
};
use vstd::prelude::*;

verus! {

/// The smallest counter over some rows is no larger than the item's counter
/// in any of them, and is the item's counter in one of them.
pub proof fn lemma_min_cell(g: Seq<Seq<u64>>, h: u64, width: nat, rows: nat)
    ensures
        forall|r: int|
            0 <= r < rows ==> min_cell(g, h, width, rows) <= #[trigger] cell_of(g, h, width, r),
        rows >= 1 ==> exists|r: int|
            0 <= r < rows && min_cell(g, h, width, rows) == #[trigger] cell_of(g, h, width, r),
    decreases rows,
{
    if rows >= 2 {
        let fewer = (rows - 1) as nat;
        lemma_min_cell(g, h, width, fewer);
        let r0 = choose|r: int|
            0 <= r < fewer && min_cell(g, h, width, fewer) == #[trigger] cell_of(g, h, width, r);
        if cell_of(g, h, width, rows - 1) < min_cell(g, h, width, fewer) {
            assert(min_cell(g, h, width, rows) == cell_of(g, h, width, rows - 1));
        } else {
            assert(min_cell(g, h, width, rows) == cell_of(g, h, width, r0));
        }
    } else if rows == 1 {
        assert(min_cell(g, h, width, 0) == u64::MAX);
        assert(min_cell(g, h, width, rows) == cell_of(g, h, width, 0));
    }
}

/// An estimate is at least `k` as soon as the item's counter is at least `k`
/// in every row.
pub proof fn lemma_estimate_at_least(g: Seq<Seq<u64>>, h: u64, width: nat, k: u64)
    requires
        forall|r: int| 0 <= r < g.len() ==> #[trigger] cell_of(g, h, width, r) >= k,
    ensures
        estimated(g, h, width) >= k,
{
    lemma_min_cell(g, h, width, g.len());
}

/// Zero baseline: on a table of zeros, with at least one row, every estimate
/// is zero.
pub proof fn lemma_zero_baseline(width: nat, depth: nat, h: u64)
    requires
        1 <= width <= usize::MAX,
        depth >= 1,
    ensures
        estimated(zero_grid(width, depth), h, width) == 0,
{
    let g = zero_grid(width, depth);
    lemma_min_cell(g, h, width, depth);
    lemma_bucket_in_row(h, 0, width);
    assert(cell_of(g, h, width, 0) == 0);
}

/// Increments keep the shape of the grid.
pub proof fn lemma_after_increments_shape(g: Seq<Seq<u64>>, width: nat, depth: nat, hs: Seq<u64>)
    requires
        grid_shape(g, width, depth),
        1 <= width <= usize::MAX,
    ensures
        grid_shape(after_increments(g, hs, width), width, depth),
    decreases hs.len(),
{
    if hs.len() > 0 {
        lemma_after_increments_shape(g, width, depth, hs.drop_last());
        let prev = after_increments(g, hs.drop_last(), width);
        let next = incremented(prev, hs.last(), width);
        assert forall|r: int| 0 <= r < depth implies (#[trigger] next[r]).len() == width by {
            lemma_bucket_in_row(hs.last(), r as nat, width);
            assert(prev[r].len() == width);
        }
    }
}

/// After the increments `hs`, the counter of `h` in row `r` has grown by at
/// least the number of times `h` occurs in `hs`, up to the cap.
pub proof fn lemma_cell_after_increments(
    g: Seq<Seq<u64>>,
    width: nat,
    depth: nat,
    hs: Seq<u64>,
    h: u64,
    r: int,
)
    requires
        grid_shape(g, width, depth),
        1 <= width <= usize::MAX,
        0 <= r < depth,
    ensures
        cell_of(after_increments(g, hs, width), h, width, r) >= capped(
            cell_of(g, h, width, r) + occurrences(hs, h),
        ),
    decreases hs.len(),
{
    if hs.len() > 0 {
        let prev = after_increments(g, hs.drop_last(), width);
        lemma_cell_after_increments(g, width, depth, hs.drop_last(), h, r);
        lemma_after_increments_shape(g, width, depth, hs.drop_last());
        lemma_bucket_in_row(h, r as nat, width);
        lemma_bucket_in_row(hs.last(), r as nat, width);
        assert(prev[r].len() == width);
    }
}

/// No underestimation: after any sequence of increments, the estimate for `h`
/// is at least the estimate before them plus the number of times `h` was
/// incremented, up to the largest value a counter holds.
pub proof fn lemma_no_underestimation_from(
    g: Seq<Seq<u64>>,
    width: nat,
    depth: nat,
    hs: Seq<u64>,
    h: u64,
)
    requires
        grid_shape(g, width, depth),
        1 <= width <= usize::MAX,
    ensures
        estimated(after_increments(g, hs, width), h, width) >= capped(
            estimated(g, h, width) + occurrences(hs, h),
        ),
{
    let end = after_increments(g, hs, width);
    let k = capped(estimated(g, h, width) + occurrences(hs, h));
    lemma_after_increments_shape(g, width, depth, hs);
    lemma_min_cell(g, h, width, depth);
    assert forall|r: int| 0 <= r < end.len() implies #[trigger] cell_of(end, h, width, r) >= k by {
        lemma_cell_after_increments(g, width, depth, hs, h, r);
    }
    lemma_estimate_at_least(end, h, width, k);
}

/// No underestimation, from a fresh table: the estimate for `h` is at least
/// the number of times `h` was incremented, up to the largest value a counter
/// holds.
pub proof fn lemma_no_underestimation(width: nat, depth: nat, hs: Seq<u64>, h: u64)
    requires
        1 <= width <= usize::MAX,
        depth >= 1,
    ensures
        estimated(after_increments(zero_grid(width, depth), hs, width), h, width) >= capped(
            occurrences(hs, h) as int,
        ),
{
    lemma_zero_baseline(width, depth, h);
    lemma_no_underestimation_from(zero_grid(width, depth), width, depth, hs, h);
}

/// Merging adds estimates up: the estimate on the merged grid is at least the
/// sum of the estimates on the two grids, up to the cap.
pub proof fn lemma_merge_estimates(
    a: Seq<Seq<u64>>,
    b: Seq<Seq<u64>>,
    width: nat,
    depth: nat,
    h: u64,
)
    requires
        grid_shape(a, width, depth),
        grid_shape(b, width, depth),
        1 <= width <= usize::MAX,
    ensures
        grid_shape(merged(a, b), width, depth),
        estimated(merged(a, b), h, width) >= capped(
            estimated(a, h, width) + estimated(b, h, width),
        ),
{
    let m = merged(a, b);
    let k = capped(estimated(a, h, width) + estimated(b, h, width));
    lemma_min_cell(a, h, width, depth);
    lemma_min_cell(b, h, width, depth);
    assert forall|r: int| 0 <= r < m.len() implies #[trigger] cell_of(m, h, width, r) >= k by {
        lemma_bucket_in_row(h, r as nat, width);
        assert(a[r].len() == width);
        assert(cell_of(a, h, width, r) >= estimated(a, h, width));
        assert(cell_of(b, h, width, r) >= estimated(b, h, width));
    }
    lemma_estimate_at_least(m, h, width, k);
}

/// Merge preserves overestimation: when two fresh tables of one shape took
/// the increments `ha` and `hb`, the estimate for `h` on their merge is at
/// least the number of times `h` occurs in both together, up to the cap.
pub proof fn lemma_merge_no_underestimation(
    width: nat,
    depth: nat,
    ha: Seq<u64>,
    hb: Seq<u64>,
    h: u64,
)
    requires
        1 <= width <= usize::MAX,
        depth >= 1,
    ensures
        estimated(
            merged(
                after_increments(zero_grid(width, depth), ha, width),
                after_increments(zero_grid(width, depth), hb, width),
            ),
            h,
            width,
        ) >= capped((occurrences(ha, h) + occurrences(hb, h)) as int),
{
    let z = zero_grid(width, depth);
    let a = after_increments(z, ha, width);
    let b = after_increments(z, hb, width);
    lemma_no_underestimation(width, depth, ha, h);
    lemma_no_underestimation(width, depth, hb, h);
    lemma_after_increments_shape(z, width, depth, ha);
    lemma_after_increments_shape(z, width, depth, hb);
    lemma_merge_estimates(a, b, width, depth, h);
}

/// Merging is commutative.
pub proof fn lemma_merge_commutes(a: Seq<Seq<u64>>, b: Seq<Seq<u64>>, width: nat, depth: nat)
    requires
        grid_shape(a, width, depth),
        grid_shape(b, width, depth),
    ensures
        merged(a, b) == merged(b, a),
{
    let ab = merged(a, b);
    let ba = merged(b, a);
    assert forall|r: int| 0 <= r < depth implies #[trigger] ab[r] == ba[r] by {
        assert(a[r].len() == b[r].len());
        assert(ab[r] =~= ba[r]);
    }
    assert(ab =~= ba);
}

/// Merging is associative.
pub proof fn lemma_merge_associates(
    a: Seq<Seq<u64>>,
    b: Seq<Seq<u64>>,
    c: Seq<Seq<u64>>,
    width: nat,
    depth: nat,
)
    requires
        grid_shape(a, width, depth),
        grid_shape(b, width, depth),
        grid_shape(c, width, depth),
    ensures
        merged(merged(a, b), c) == merged(a, merged(b, c)),
{
    let left = merged(merged(a, b), c);
    let right = merged(a, merged(b, c));
    assert forall|r: int| 0 <= r < depth implies #[trigger] left[r] == right[r] by {
        assert(a[r].len() == width && b[r].len() == width);
        assert(left[r] =~= right[r]);
    }
    assert(left =~= right);
}

/// No counter goes down: neither by an increment nor by a merge.
pub proof fn lemma_counters_never_decrease(
    g: Seq<Seq<u64>>,
    other: Seq<Seq<u64>>,
    width: nat,
    depth: nat,
    h: u64,
    r: int,
    c: int,
)
    requires
        grid_shape(g, width, depth),
        grid_shape(other, width, depth),
        1 <= width <= usize::MAX,
        0 <= r < depth,
        0 <= c < width,
    ensures
        incremented(g, h, width)[r][c] >= g[r][c],
        incremented(g, h, width)[r][c] <= g[r][c] + 1,
        merged(g, other)[r][c] >= g[r][c],
        merged(g, other)[r][c] >= other[r][c],
{
    lemma_bucket_in_row(h, r as nat, width);
    assert(g[r].len() == width);
}

/// A row is at distance zero from itself.
pub proof fn lemma_row_self_distance(a: Seq<u64>, n: nat)
    ensures
        row_l1(a, a, n) == 0,
    decreases n,
{
    if n > 0 {
        lemma_row_self_distance(a, (n - 1) as nat);
    }
}

/// Self-distance: a grid with at least one row is at L1 distance zero from
/// itself.
pub proof fn lemma_self_distance(g: Seq<Seq<u64>>)
    requires
        g.len() >= 1,
    ensures
        l1_of(g, g) == 0,
{
    lemma_min_row_self(g, g.len());
}

proof fn lemma_min_row_self(g: Seq<Seq<u64>>, rows: nat)
    requires
        rows >= 1,
    ensures
        min_row_l1(g, g, rows) == 0,
    decreases rows,
{
    lemma_row_self_distance(g[rows - 1], g[rows - 1].len());
    if rows >= 2 {
        lemma_min_row_self(g, (rows - 1) as nat);
    }
}

/// The L1 distance is the distance of some row, or the cap, and no row is
/// closer.
pub proof fn lemma_l1_is_least(a: Seq<Seq<u64>>, b: Seq<Seq<u64>>, rows: nat)
    ensures
        min_row_l1(a, b, rows) <= u64::MAX,
        forall|r: int|
            0 <= r < rows ==> min_row_l1(a, b, rows) <= #[trigger] row_l1(a[r], b[r], a[r].len()),
        min_row_l1(a, b, rows) == u64::MAX || exists|r: int|
            0 <= r < rows && min_row_l1(a, b, rows) == #[trigger] row_l1(a[r], b[r], a[r].len()),
    decreases rows,
{
    if rows >= 1 {
        lemma_l1_is_least(a, b, (rows - 1) as nat);
        let rest = min_row_l1(a, b, (rows - 1) as nat);
        let here = row_l1(a[rows - 1], b[rows - 1], a[rows - 1].len());
        if here < rest {
            assert(min_row_l1(a, b, rows) == row_l1(a[rows - 1], b[rows - 1], a[rows - 1].len()));
        } else if rest != u64::MAX {
            let r0 = choose|r: int|
                0 <= r < rows - 1 && rest == #[trigger] row_l1(a[r], b[r], a[r].len());
            assert(min_row_l1(a, b, rows) == row_l1(a[r0], b[r0], a[r0].len()));
        }
    }
}

/// The primary hashes of `items` under the seeds `k0` to `k3`, in order.
pub open spec fn hashes_of(k0: u64, k1: u64, k2: u64, k3: u64, items: Seq<Seq<char>>) -> Seq<u64> {
    Seq::new(items.len(), |i: int| keyed_hash(k0, k1, k2, k3, items[i]))
}

/// How often `x` occurs among `items`.
pub open spec fn true_count(items: Seq<Seq<char>>, x: Seq<char>) -> nat
    decreases items.len(),
{
    if items.len() == 0 {
        0
    } else {
        true_count(items.drop_last(), x) + if items.last() == x {
            1nat
        } else {
            0nat
        }
    }
}

/// An item's hash occurs among the hashes at least as often as the item
/// occurs among the items.
pub proof fn lemma_hash_occurrences(
    k0: u64,
    k1: u64,
    k2: u64,
    k3: u64,
    items: Seq<Seq<char>>,
    x: Seq<char>,
)
    ensures
        occurrences(hashes_of(k0, k1, k2, k3, items), keyed_hash(k0, k1, k2, k3, x)) >= true_count(
            items,
            x,
        ),
    decreases items.len(),
{
    if items.len() > 0 {
        lemma_hash_occurrences(k0, k1, k2, k3, items.drop_last(), x);
        assert(hashes_of(k0, k1, k2, k3, items).drop_last() =~= hashes_of(
            k0,
            k1,
            k2,
            k3,
            items.drop_last(),
        ));
    }
}

/// No underestimation, in terms of items: after a fresh table took one
/// increment for each of `items`, the estimate for the item `x` is at least
/// the number of times `x` occurs among them, up to the largest value a
/// counter holds.
pub proof fn lemma_items_no_underestimation(
    k0: u64,
    k1: u64,
    k2: u64,
    k3: u64,
    width: nat,
    depth: nat,
    items: Seq<Seq<char>>,
    x: Seq<char>,
)
    requires
        1 <= width <= usize::MAX,
        depth >= 1,
    ensures
        estimated(
            after_increments(zero_grid(width, depth), hashes_of(k0, k1, k2, k3, items), width),
            keyed_hash(k0, k1, k2, k3, x),
            width,
        ) >= capped(true_count(items, x) as int),
{
    lemma_hash_occurrences(k0, k1, k2, k3, items, x);
    lemma_no_underestimation(
        width,
        depth,
        hashes_of(k0, k1, k2, k3, items),
        keyed_hash(k0, k1, k2, k3, x),
    );
}

/// Merge preserves overestimation, in terms of items: when two fresh tables
/// of one shape and with the same seeds took one increment for each of
/// `left` and of `right`, the estimate for the item `x` on their merge is at
/// least the number of times `x` occurs in both together, up to the largest
/// value a counter holds.
pub proof fn lemma_items_merge_no_underestimation(
    k0: u64,
    k1: u64,
    k2: u64,
    k3: u64,
    width: nat,
    depth: nat,
    left: Seq<Seq<char>>,
    right: Seq<Seq<char>>,
    x: Seq<char>,
)
    requires
        1 <= width <= usize::MAX,
        depth >= 1,
    ensures
        estimated(
            merged(
                after_increments(zero_grid(width, depth), hashes_of(k0, k1, k2, k3, left), width),
                after_increments(zero_grid(width, depth), hashes_of(k0, k1, k2, k3, right), width),
            ),
            keyed_hash(k0, k1, k2, k3, x),
            width,
        ) >= capped((true_count(left, x) + true_count(right, x)) as int),
{
    lemma_hash_occurrences(k0, k1, k2, k3, left, x);
    lemma_hash_occurrences(k0, k1, k2, k3, right, x);
    lemma_merge_no_underestimation(
        width,
        depth,
        hashes_of(k0, k1, k2, k3, left),
        hashes_of(k0, k1, k2, k3, right),
        keyed_hash(k0, k1, k2, k3, x),
    );
}

} // verus!
