//! What it means for a cell to lie a number of steps from a source.

use vstd::prelude::*;
use crate::cell::CellType;
use crate::grid::Grid;

verus! {

/// Whether two positions are next to each other: one step left, up, right or down.
pub open spec fn adjacent(x1: int, y1: int, x2: int, y2: int) -> bool {
    ||| (y1 == y2 && (x1 == x2 + 1 || x1 + 1 == x2))
    ||| (x1 == x2 && (y1 == y2 + 1 || y1 + 1 == y2))
}

impl Grid {
    /// Whether the position lies inside the grid and holds a source.
    pub open spec fn is_source(&self, x: int, y: int) -> bool {
        self.in_bounds(x, y) && self.kind(x, y) == CellType::Source
    }

    /// Whether the position lies inside the grid and holds no barrier.
    pub open spec fn is_open(&self, x: int, y: int) -> bool {
        self.in_bounds(x, y) && self.kind(x, y) != CellType::Barrier
    }

    /// Whether some source lies at most `n` steps from column `x`, row `y`, each
    /// step leading from one cell that is no barrier to an adjacent one.
    pub open spec fn within(&self, x: int, y: int, n: nat) -> bool
        decreases n,
    {
        &&& self.is_open(x, y)
        &&& {
            ||| self.is_source(x, y)
            ||| n > 0 && {
                ||| self.within(x - 1, y, (n - 1) as nat)
                ||| self.within(x, y - 1, (n - 1) as nat)
                ||| self.within(x + 1, y, (n - 1) as nat)
                ||| self.within(x, y + 1, (n - 1) as nat)
            }
        }
    }

    /// Whether the nearest source lies exactly `n` steps from column `x`, row `y`.
    pub open spec fn nearest_at(&self, x: int, y: int, n: nat) -> bool {
        self.within(x, y, n) && (n > 0 ==> !self.within(x, y, (n - 1) as nat))
    }

    /// Whether `label` is the label that column `x`, row `y` is owed: one more
    /// than the number of steps to the nearest source, or none where no source
    /// can be reached.
    pub open spec fn label_ok(&self, x: int, y: int, label: Option<usize>) -> bool {
        match label {
            Some(d) => d >= 1 && self.nearest_at(x, y, (d - 1) as nat),
            None => forall|n: nat| !self.within(x, y, n),
        }
    }

    /// Whether every cell carries the label it is owed.
    pub open spec fn labelled(&self) -> bool {
        forall|x: int, y: int|
            self.in_bounds(x, y) ==> self.label_ok(x, y, #[trigger] self.number(x, y))
    }

    /// A source that lies within `n` steps lies within any larger number of steps.
    pub proof fn lemma_within_grows(&self, x: int, y: int, n: nat, m: nat)
        requires
            self.within(x, y, n),
            n <= m,
        ensures
            self.within(x, y, m),
        decreases n,
    {
        if !self.is_source(x, y) {
            let k = (n - 1) as nat;
            let j = (m - 1) as nat;
            if self.within(x - 1, y, k) {
                self.lemma_within_grows(x - 1, y, k, j);
            } else if self.within(x, y - 1, k) {
                self.lemma_within_grows(x, y - 1, k, j);
            } else if self.within(x + 1, y, k) {
                self.lemma_within_grows(x + 1, y, k, j);
            } else {
                self.lemma_within_grows(x, y + 1, k, j);
            }
        }
    }

    /// The cells within no step of a source are the sources; those within one
    /// step are the sources and the cells, barriers apart, next to one.
    pub proof fn lemma_within_one(&self, x: int, y: int)
        ensures
            self.within(x, y, 0) == self.is_source(x, y),
            self.within(x, y, 1) == (self.is_open(x, y) && (self.is_source(x, y)
                || self.is_source(x - 1, y) || self.is_source(x, y - 1) || self.is_source(
                x + 1,
                y,
            ) || self.is_source(x, y + 1))),
    {
        reveal_with_fuel(Grid::within, 2);
    }

    /// A cell lies within `h + 1` steps of a source exactly if it is no barrier
    /// and is a source or has a neighbour within `h` steps.
    pub proof fn lemma_step_split(&self, x: int, y: int, h: nat)
        ensures
            self.within(x, y, h + 1) <==> self.is_open(x, y) && (self.is_source(x, y)
                || self.within(x - 1, y, h) || self.within(x, y - 1, h) || self.within(x + 1, y, h)
                || self.within(x, y + 1, h)),
    {
    }

    /// Reaching a source depends on the kinds of the cells alone.
    pub proof fn lemma_within_same_kinds(&self, other: &Grid, x: int, y: int, n: nat)
        requires
            self.same_kinds(other),
        ensures
            self.within(x, y, n) == other.within(x, y, n),
        decreases n,
    {
        if n > 0 {
            let k = (n - 1) as nat;
            self.lemma_within_same_kinds(other, x - 1, y, k);
            self.lemma_within_same_kinds(other, x, y - 1, k);
            self.lemma_within_same_kinds(other, x + 1, y, k);
            self.lemma_within_same_kinds(other, x, y + 1, k);
        }
    }

    /// A cell is owed one label and no other.
    pub proof fn lemma_label_unique(&self, x: int, y: int, a: Option<usize>, b: Option<usize>)
        requires
            self.label_ok(x, y, a),
            self.label_ok(x, y, b),
        ensures
            a == b,
    {
        match (a, b) {
            (Some(da), Some(db)) => {
                if da < db {
                    self.lemma_within_grows(x, y, (da - 1) as nat, (db - 2) as nat);
                } else if db < da {
                    self.lemma_within_grows(x, y, (db - 1) as nat, (da - 2) as nat);
                }
            },
            (Some(da), None) => {
                assert(self.within(x, y, (da - 1) as nat));
            },
            (None, Some(db)) => {
                assert(self.within(x, y, (db - 1) as nat));
            },
            (None, None) => {},
        }
    }
}

} // verus!
