//! The sketch itself: a flat, row-major table of counters and the seeds of
//! its keyed hash.

use crate::dimension::{is_power_of_two, lemma_round_up_pow2, next_power_of_two, round_up_pow2};
use crate::hashing::{hash_item, keyed_hash};
use crate::index::{bucket, bucket_index, lemma_bucket_in_row, secondary, secondary_hash};
use crate::laws::{lemma_min_cell, lemma_zero_baseline};
use crate::model::{
    capped, cell_of, estimated, grid_shape, incremented, l1_of, merged, min_cell, min_row_l1,
    row_l1, zero_grid,
};
use vstd::prelude::*;

verus! {

/// The position of column `c` of row `r` in a row-major table of width `w`.
spec fn flat(r: int, c: int, w: int) -> int {
    r * w + c
}

/// A flat position determines its row and column, and lies inside the table.
proof fn lemma_flat(r: int, c: int, w: int, d: int)
    requires
        0 <= r < d,
        0 <= c < w,
    ensures
        0 <= flat(r, c, w) < w * d,
        forall|r2: int, c2: int|
            0 <= r2 && 0 <= c2 < w && #[trigger] flat(r2, c2, w) == flat(r, c, w) ==> r2 == r && c2
                == c,
{
    assert(0 <= r * w + c < w * d) by (nonlinear_arith)
        requires
            0 <= r < d,
            0 <= c < w,
    ;
    assert forall|r2: int, c2: int|
        0 <= r2 && 0 <= c2 < w && #[trigger] flat(r2, c2, w) == flat(r, c, w) implies r2 == r && c2
        == c by {
        assert(r2 == r && c2 == c) by (nonlinear_arith)
            requires
                0 <= r,
                0 <= r2,
                0 <= c < w,
                0 <= c2 < w,
                r2 * w + c2 == r * w + c,
        ;
    }
}

/// A Count-Min Sketch over string items.
pub struct CountMinSketch {
    width: usize,
    width_mask: usize,
    depth: usize,
    table: Vec<u64>,
    k0: u64,
    k1: u64,
    k2: u64,
    k3: u64,
}

impl View for CountMinSketch {
    type V = Seq<Seq<u64>>;

    /// The counters as a grid: row `r`, column `c`.
    closed spec fn view(&self) -> Seq<Seq<u64>> {
        Seq::new(
            self.depth as nat,
            |r: int|
                Seq::new(self.width as nat, |c: int| self.table@[flat(r, c, self.width as int)]),
        )
    }
}

impl CountMinSketch {
    /// The number of columns of each row.
    pub closed spec fn spec_width(&self) -> nat {
        self.width as nat
    }

    /// The number of rows.
    pub closed spec fn spec_depth(&self) -> nat {
        self.depth as nat
    }

    /// The four seeds of the keyed hash.
    pub closed spec fn spec_seeds(&self) -> (u64, u64, u64, u64) {
        (self.k0, self.k1, self.k2, self.k3)
    }

    /// The invariant of the sketch: at least one row; a width that is a power
    /// of two, with its mask; and a table of exactly `width * depth` counters.
    pub closed spec fn wf(&self) -> bool {
        &&& self.depth >= 1
        &&& is_power_of_two(self.width as nat)
        &&& self.width >= 1
        &&& self.width_mask == self.width - 1
        &&& self.table@.len() == self.width * self.depth
    }

    /// What the invariant means for the dimensions and the grid.
    pub proof fn lemma_wf(&self)
        requires
            self.wf(),
        ensures
            self.spec_depth() >= 1,
            self.spec_width() >= 1,
            is_power_of_two(self.spec_width()),
            grid_shape(self@, self.spec_width(), self.spec_depth()),
    {
    }

    /// A zeroed sketch of `depth` rows with the given seeds, its width
    /// rounded up to a power of two.
    pub fn with_seeds(width: usize, depth: usize, seeds: [u64; 4]) -> (s: Self)
        requires
            width >= 1,
            depth >= 1,
            round_up_pow2(width as nat) * depth <= usize::MAX,
        ensures
            s.wf(),
            s.spec_width() == round_up_pow2(width as nat),
            s.spec_depth() == depth,
            s.spec_seeds() == (seeds[0], seeds[1], seeds[2], seeds[3]),
            s@ == zero_grid(s.spec_width(), s.spec_depth()),
            forall|h: u64| #[trigger] estimated(s@, h, s.spec_width()) == 0,
    {
        proof {
            lemma_round_up_pow2(width as nat);
            assert(round_up_pow2(width as nat) <= usize::MAX) by (nonlinear_arith)
                requires
                    round_up_pow2(width as nat) * depth <= usize::MAX,
                    depth >= 1,
            ;
        }
        let w = next_power_of_two(width);
        let table = vec![0u64; w * depth];
        let s = CountMinSketch {
            width: w,
            width_mask: w - 1,
            depth,
            table,
            k0: seeds[0],
            k1: seeds[1],
            k2: seeds[2],
            k3: seeds[3],
        };
        proof {
            assert forall|r: int| 0 <= r < depth implies #[trigger] s@[r] == zero_grid(
                w as nat,
                depth as nat,
            )[r] by {
                assert forall|c: int| 0 <= c < w implies #[trigger] s@[r][c] == 0u64 by {
                    lemma_flat(r, c, w as int, depth as int);
                }
                assert(s@[r] =~= zero_grid(w as nat, depth as nat)[r]);
            }
            assert(s@ =~= zero_grid(w as nat, depth as nat));
            assert forall|h: u64| #[trigger] estimated(s@, h, w as nat) == 0 by {
                lemma_zero_baseline(w as nat, depth as nat, h);
            }
        }
        s
    }

    /// A zeroed sketch of `depth` rows with the default seeds, its width
    /// rounded up to a power of two.
    pub fn new(width: usize, depth: usize) -> (s: Self)
        requires
            width >= 1,
            depth >= 1,
            round_up_pow2(width as nat) * depth <= usize::MAX,
        ensures
            s.wf(),
            s.spec_width() == round_up_pow2(width as nat),
            s.spec_depth() == depth,
            s.spec_seeds() == (2025u64, 2u64, 18u64, 2118u64),
            s@ == zero_grid(s.spec_width(), s.spec_depth()),
            forall|h: u64| #[trigger] estimated(s@, h, s.spec_width()) == 0,
    {
        Self::with_seeds(width, depth, [2025, 2, 18, 2118])
    }

    /// Adds one, saturating, to the counter of each row that the item with
    /// primary hash `h1` occupies.
    pub fn increment_hashed(&mut self, h1: u64)
        requires
            old(self).wf(),
        ensures
            final(self).wf(),
            final(self).spec_width() == old(self).spec_width(),
            final(self).spec_depth() == old(self).spec_depth(),
            final(self).spec_seeds() == old(self).spec_seeds(),
            final(self)@ == incremented(old(self)@, h1, old(self).spec_width()),
    {
        let h2 = secondary_hash(h1);
        let ghost before = self.table@;
        let ghost w = self.width as int;
        let ghost d = self.depth as int;
        let mut i: usize = 0;
        while i < self.depth
            invariant
                i <= self.depth,
                self.wf(),
                self.width == old(self).width,
                self.depth == old(self).depth,
                self.spec_seeds() == old(self).spec_seeds(),
                w == self.width,
                d == self.depth,
                before == old(self).table@,
                h2 == secondary(h1),
                forall|r: int, c: int|
                    0 <= r < d && 0 <= c < w ==> self.table@[#[trigger] flat(r, c, w)] == (if r < i
                        && c == bucket(h1, r as nat, w as nat) {
                        before[flat(r, c, w)].saturating_add(1)
                    } else {
                        before[flat(r, c, w)]
                    }),
            decreases self.depth - i,
        {
            let b = bucket_index(h1, h2, i, self.width_mask);
            proof {
                lemma_flat(i as int, b as int, w, d);
                assert(self.table.len() <= usize::MAX);
                assert(0 <= i * self.width <= flat(i as int, b as int, w)) by (nonlinear_arith)
                    requires
                        0 <= b,
                        w == self.width,
                ;
            }
            let idx = i * self.width + b;
            let ghost prev = self.table@;
            let v = self.table[idx].saturating_add(1);
            self.table.set(idx, v);
            proof {
                assert forall|r: int, c: int|
                    0 <= r < d && 0 <= c < w implies self.table@[#[trigger] flat(r, c, w)] == (if r
                    < i + 1 && c == bucket(h1, r as nat, w as nat) {
                    before[flat(r, c, w)].saturating_add(1)
                } else {
                    before[flat(r, c, w)]
                }) by {
                    lemma_flat(r, c, w, d);
                    if flat(r, c, w) == idx {
                        assert(r == i && c == b);
                    } else {
                        assert(self.table@[flat(r, c, w)] == prev[flat(r, c, w)]);
                    }
                }
            }
            i += 1;
        }
        proof {
            let goal = incremented(old(self)@, h1, w as nat);
            assert forall|r: int| 0 <= r < d implies #[trigger] self@[r] =~= goal[r] by {
                lemma_bucket_in_row(h1, r as nat, w as nat);
                assert forall|c: int| 0 <= c < w implies self@[r][c] == goal[r][c] by {
                    lemma_flat(r, c, w, d);
                }
            }
            assert(self@ =~= goal);
        }
    }

    /// The smallest of the counters that the item with primary hash `h1`
    /// occupies, one in each row.
    pub fn estimate_hashed(&self, h1: u64) -> (e: u64)
        requires
            self.wf(),
        ensures
            e == estimated(self@, h1, self.spec_width()),
            forall|r: int|
                0 <= r < self.spec_depth() ==> e <= #[trigger] cell_of(
                    self@,
                    h1,
                    self.spec_width(),
                    r,
                ),
            exists|r: int|
                0 <= r < self.spec_depth() && e == #[trigger] cell_of(
                    self@,
                    h1,
                    self.spec_width(),
                    r,
                ),
    {
        let h2 = secondary_hash(h1);
        let mut least: u64 = u64::MAX;
        let mut i: usize = 0;
        while i < self.depth
            invariant
                i <= self.depth,
                self.wf(),
                h2 == secondary(h1),
                least == min_cell(self@, h1, self.width as nat, i as nat),
            decreases self.depth - i,
        {
            let b = bucket_index(h1, h2, i, self.width_mask);
            proof {
                lemma_flat(i as int, b as int, self.width as int, self.depth as int);
                assert(self.table.len() <= usize::MAX);
                assert(0 <= i * self.width <= flat(i as int, b as int, self.width as int))
                    by (nonlinear_arith)
                    requires
                        0 <= b,
                ;
            }
            let val = self.table[i * self.width + b];
            if val < least {
                least = val;
            }
            i += 1;
        }
        proof {
            lemma_min_cell(self@, h1, self.width as nat, self.depth as nat);
        }
        least
    }

    /// The primary hash of `item` under this sketch's seeds.
    pub open spec fn hash_of(&self, item: Seq<char>) -> u64 {
        keyed_hash(
            self.spec_seeds().0,
            self.spec_seeds().1,
            self.spec_seeds().2,
            self.spec_seeds().3,
            item,
        )
    }

    /// Counts one more occurrence of `item`.
    pub fn increment(&mut self, item: &str)
        requires
            old(self).wf(),
        ensures
            final(self).wf(),
            final(self).spec_width() == old(self).spec_width(),
            final(self).spec_depth() == old(self).spec_depth(),
            final(self).spec_seeds() == old(self).spec_seeds(),
            final(self)@ == incremented(
                old(self)@,
                old(self).hash_of(item@),
                old(self).spec_width(),
            ),
    {
        let h1 = hash_item(self.k0, self.k1, self.k2, self.k3, item);
        self.increment_hashed(h1);
    }

    /// How often `item` was counted, or more: never less, short of the
    /// largest value a counter holds.
    pub fn estimate(&self, item: &str) -> (e: u64)
        requires
            self.wf(),
        ensures
            e == estimated(self@, self.hash_of(item@), self.spec_width()),
            forall|r: int|
                0 <= r < self.spec_depth() ==> e <= #[trigger] cell_of(
                    self@,
                    self.hash_of(item@),
                    self.spec_width(),
                    r,
                ),
            exists|r: int|
                0 <= r < self.spec_depth() && e == #[trigger] cell_of(
                    self@,
                    self.hash_of(item@),
                    self.spec_width(),
                    r,
                ),
    {
        let h1 = hash_item(self.k0, self.k1, self.k2, self.k3, item);
        assert(h1 == self.hash_of(item@));
        self.estimate_hashed(h1)
    }

    /// Whether `other` has this sketch's width and depth.
    pub fn same_dimensions(&self, other: &Self) -> (same: bool)
        ensures
            same <==> self.spec_width() == other.spec_width() && self.spec_depth()
                == other.spec_depth(),
    {
        self.width == other.width && self.depth == other.depth
    }

    /// Adds the counters of `other` to this sketch's, cell by cell and
    /// saturating, if the two have the same dimensions; changes nothing and
    /// reports it otherwise.
    pub fn merge(&mut self, other: &Self) -> (r: Result<(), &'static str>)
        requires
            old(self).wf(),
            other.wf(),
        ensures
            final(self).wf(),
            final(self).spec_width() == old(self).spec_width(),
            final(self).spec_depth() == old(self).spec_depth(),
            final(self).spec_seeds() == old(self).spec_seeds(),
            r is Ok <==> old(self).spec_width() == other.spec_width() && old(self).spec_depth()
                == other.spec_depth(),
            r is Ok ==> final(self)@ == merged(old(self)@, other@),
            r is Err ==> *final(self) == *old(self),
            r matches Err(msg) ==> msg@ == "Incompatible dimensions"@,
    {
        if !self.same_dimensions(other) {
            return Err("Incompatible dimensions");
        }
        let ghost before = self.table@;
        let n = self.table.len();
        let mut k: usize = 0;
        while k < n
            invariant
                k <= n,
                n == self.table@.len(),
                n == other.table@.len(),
                self.wf(),
                self.width == old(self).width,
                self.depth == old(self).depth,
                self.spec_seeds() == old(self).spec_seeds(),
                before == old(self).table@,
                forall|j: int|
                    0 <= j < n ==> self.table@[j] == (if j < k {
                        before[j].saturating_add(other.table@[j])
                    } else {
                        before[j]
                    }),
            decreases n - k,
        {
            let v = self.table[k].saturating_add(other.table[k]);
            self.table.set(k, v);
            k += 1;
        }
        proof {
            let goal = merged(old(self)@, other@);
            let w = self.width as int;
            let d = self.depth as int;
            assert forall|r: int| 0 <= r < d implies #[trigger] self@[r] =~= goal[r] by {
                assert forall|c: int| 0 <= c < w implies self@[r][c] == goal[r][c] by {
                    lemma_flat(r, c, w, d);
                }
            }
            assert(self@ =~= goal);
        }
        Ok(())
    }

    /// Sets every counter back to zero; dimensions and seeds stay.
    pub fn clear(&mut self)
        requires
            old(self).wf(),
        ensures
            final(self).wf(),
            final(self).spec_width() == old(self).spec_width(),
            final(self).spec_depth() == old(self).spec_depth(),
            final(self).spec_seeds() == old(self).spec_seeds(),
            final(self)@ == zero_grid(old(self).spec_width(), old(self).spec_depth()),
            forall|h: u64| #[trigger] estimated(final(self)@, h, final(self).spec_width()) == 0,
    {
        let n = self.table.len();
        let mut k: usize = 0;
        while k < n
            invariant
                k <= n,
                n == self.table@.len(),
                self.wf(),
                self.width == old(self).width,
                self.depth == old(self).depth,
                self.spec_seeds() == old(self).spec_seeds(),
                forall|j: int| 0 <= j < k ==> self.table@[j] == 0u64,
            decreases n - k,
        {
            self.table.set(k, 0);
            k += 1;
        }
        proof {
            let w = self.width as int;
            let d = self.depth as int;
            let goal = zero_grid(w as nat, d as nat);
            assert forall|r: int| 0 <= r < d implies #[trigger] self@[r] =~= goal[r] by {
                assert forall|c: int| 0 <= c < w implies self@[r][c] == goal[r][c] by {
                    lemma_flat(r, c, w, d);
                }
            }
            assert(self@ =~= goal);
            assert forall|h: u64| #[trigger] estimated(self@, h, w as nat) == 0 by {
                lemma_zero_baseline(w as nat, d as nat, h);
            }
        }
    }

    /// The L1 distance to `other`: for each row the sum of the distances
    /// between the two sketches' counters, and of these sums the smallest,
    /// capped at `u64::MAX`. Reports sketches of different dimensions.
    pub fn l1_distance(&self, other: &Self) -> (r: Result<u64, &'static str>)
        requires
            self.wf(),
            other.wf(),
        ensures
            r is Ok <==> self.spec_width() == other.spec_width() && self.spec_depth()
                == other.spec_depth(),
            r matches Ok(dist) ==> dist == l1_of(self@, other@),
            r matches Err(msg) ==> msg@ == "Incompatible dimensions."@,
    {
        if !self.same_dimensions(other) {
            return Err("Incompatible dimensions.");
        }
        let mut least: u64 = u64::MAX;
        let mut row: usize = 0;
        while row < self.depth
            invariant
                row <= self.depth,
                self.wf(),
                other.wf(),
                self.width == other.width,
                self.depth == other.depth,
                least == min_row_l1(self@, other@, row as nat),
            decreases self.depth - row,
        {
            let mut sum: u64 = 0;
            let mut col: usize = 0;
            while col < self.width
                invariant
                    col <= self.width,
                    row < self.depth,
                    self.wf(),
                    other.wf(),
                    self.width == other.width,
                    self.depth == other.depth,
                    sum == capped(row_l1(self@[row as int], other@[row as int], col as nat) as int),
                decreases self.width - col,
            {
                let a = self.counter(row, col);
                let b = other.counter(row, col);
                let diff = if a >= b {
                    a - b
                } else {
                    b - a
                };
                sum = sum.saturating_add(diff);
                col += 1;
            }
            if sum < least {
                least = sum;
            }
            row += 1;
        }
        Ok(least)
    }

    /// The counter in column `col` of row `row`.
    pub fn counter(&self, row: usize, col: usize) -> (v: u64)
        requires
            self.wf(),
            row < self.spec_depth(),
            col < self.spec_width(),
        ensures
            v == self@[row as int][col as int],
    {
        proof {
            lemma_flat(row as int, col as int, self.width as int, self.depth as int);
            assert(self.table.len() <= usize::MAX);
            assert(0 <= row * self.width <= flat(row as int, col as int, self.width as int))
                by (nonlinear_arith)
                requires
                    0 <= col,
            ;
        }
        self.table[row * self.width + col]
    }

    /// The width of the table, after rounding.
    pub fn get_width(&self) -> (w: usize)
        ensures
            w == self.spec_width(),
    {
        self.width
    }

    /// The depth of the table.
    pub fn get_depth(&self) -> (d: usize)
        ensures
            d == self.spec_depth(),
    {
        self.depth
    }
}

} // verus!
