//! Straight-line distance between cells, in tenths of a cell.

use crate::grid::Grid;
use vstd::prelude::*;

verus! {

/// The largest number whose square does not exceed `n`.
pub fn integer_sqrt(n: u128) -> (root: u64)
    ensures
        root * root <= n < (root + 1) * (root + 1),
{
    let mut low: u128 = 0;
    let mut high: u128 = 0x1_0000_0000_0000_0000;
    assert(high * high > n) by (nonlinear_arith)
        requires
            high == 0x1_0000_0000_0000_0000,
            n <= 0xffff_ffff_ffff_ffff_ffff_ffff_ffff_ffff,
    ;
    while high - low > 1
        invariant
            low < high <= 0x1_0000_0000_0000_0000,
            low * low <= n < high * high,
        decreases high - low,
    {
        let middle: u128 = low + (high - low) / 2;
        assert(middle * middle <= 0xffff_ffff_ffff_ffff * 0xffff_ffff_ffff_ffff) by (nonlinear_arith)
            requires
                0 <= middle <= 0xffff_ffff_ffff_ffff,
        ;
        if middle * middle <= n {
            low = middle;
        } else {
            high = middle;
        }
    }
    low as u64
}

impl Grid {
    /// Square of the straight-line distance between two cells, in cells.
    pub open spec fn distance_squared(&self, a: int, b: int) -> int {
        (self.col(a) - self.col(b)) * (self.col(a) - self.col(b)) + (self.row(a) - self.row(b)) * (
        self.row(a) - self.row(b))
    }

    /// Whether the straight-line distance between two cells is below
    /// `radius` tenths of a cell.
    pub open spec fn spec_within(&self, a: int, b: int, radius: int) -> bool {
        100 * self.distance_squared(a, b) < radius * radius
    }

    /// Square of the straight-line distance between two cells, in cells.
    fn squared_distance(&self, a: usize, b: usize) -> (squared: u128)
        requires
            a < self.spec_len(),
            b < self.spec_len(),
        ensures
            squared == self.distance_squared(a as int, b as int),
            squared <= 2 * (0x7fff_ffff * 0x7fff_ffff),
    {
        let width = self.width();
        proof {
            self.lemma_col_row(a as int);
            self.lemma_col_row(b as int);
            self.lemma_dimensions_fit();
        }
        let dx: i64 = (a % width) as i64 - (b % width) as i64;
        let dy: i64 = (a / width) as i64 - (b / width) as i64;
        assert(0 <= dx * dx <= 0x7fff_ffff * 0x7fff_ffff) by (nonlinear_arith)
            requires
                -0x7fff_ffff <= dx <= 0x7fff_ffff,
        ;
        assert(0 <= dy * dy <= 0x7fff_ffff * 0x7fff_ffff) by (nonlinear_arith)
            requires
                -0x7fff_ffff <= dy <= 0x7fff_ffff,
        ;
        (dx * dx + dy * dy) as u128
    }

    /// Whether the straight-line distance between two cells is below
    /// `radius` tenths of a cell.
    pub fn within(&self, a: usize, b: usize, radius: u32) -> (r: bool)
        requires
            a < self.spec_len(),
            b < self.spec_len(),
        ensures
            r == self.spec_within(a as int, b as int, radius as int),
    {
        let squared = self.squared_distance(a, b);
        assert(radius * radius <= 0xffff_ffff * 0xffff_ffff) by (nonlinear_arith)
            requires
                0 <= radius <= 0xffff_ffff,
        ;
        100 * squared < (radius as u128) * (radius as u128)
    }

    /// The straight-line distance between two cells in tenths of a cell,
    /// rounded down.
    pub fn get_pathing_distance(&self, idx1: usize, idx2: usize) -> (distance: u64)
        requires
            idx1 < self.spec_len(),
            idx2 < self.spec_len(),
        ensures
            distance * distance <= 100 * self.distance_squared(idx1 as int, idx2 as int) < (distance
                + 1) * (distance + 1),
    {
        let squared = self.squared_distance(idx1, idx2);
        integer_sqrt(100 * squared)
    }

    /// A cell lies within a radius of another exactly when their distance,
    /// rounded down to tenths of a cell, is below the radius.
    pub proof fn lemma_within_means_closer(&self, a: int, b: int, radius: nat, distance: nat)
        requires
            distance * distance <= 100 * self.distance_squared(a, b) < (distance + 1) * (distance
                + 1),
        ensures
            self.spec_within(a, b, radius as int) <==> distance < radius,
    {
        let d = 100 * self.distance_squared(a, b);
        if distance < radius {
            assert((distance + 1) * (distance + 1) <= radius * radius) by (nonlinear_arith)
                requires
                    0 <= distance + 1 <= radius,
            ;
        } else {
            assert(radius * radius <= distance * distance) by (nonlinear_arith)
                requires
                    0 <= radius <= distance,
            ;
        }
    }
}

} // verus!
