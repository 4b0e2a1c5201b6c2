//! How labels spread from a frontier: which cells lie how many steps beyond it.

use vstd::prelude::*;
use crate::grid::Grid;
use crate::marks::{listed, Marks};

verus! {

impl Grid {
    /// Whether column `x`, row `y` lies at most `k` steps beyond the frontier:
    /// it is a cell of the frontier that is no barrier, or it is reached from
    /// one in at most `k` steps, each step leading to an adjacent cell that is
    /// no barrier and not marked in `marks`.
    pub open spec fn spread_within(
        &self,
        marks: &Marks,
        frontier: Seq<(usize, usize)>,
        x: int,
        y: int,
        k: nat,
    ) -> bool
        decreases k,
    {
        &&& self.is_open(x, y)
        &&& {
            ||| listed(frontier, x, y)
            ||| k > 0 && !marks.marked(x, y) && {
                ||| self.spread_within(marks, frontier, x - 1, y, (k - 1) as nat)
                ||| self.spread_within(marks, frontier, x, y - 1, (k - 1) as nat)
                ||| self.spread_within(marks, frontier, x + 1, y, (k - 1) as nat)
                ||| self.spread_within(marks, frontier, x, y + 1, (k - 1) as nat)
            }
        }
    }

    /// Whether column `x`, row `y` lies fewer than `k` steps beyond the frontier.
    pub open spec fn spread_before(
        &self,
        marks: &Marks,
        frontier: Seq<(usize, usize)>,
        x: int,
        y: int,
        k: nat,
    ) -> bool {
        k > 0 && self.spread_within(marks, frontier, x, y, (k - 1) as nat)
    }

    /// Whether column `x`, row `y` lies exactly `k` steps beyond the frontier.
    pub open spec fn spread_at(
        &self,
        marks: &Marks,
        frontier: Seq<(usize, usize)>,
        x: int,
        y: int,
        k: nat,
    ) -> bool {
        self.spread_within(marks, frontier, x, y, k) && !self.spread_before(
            marks,
            frontier,
            x,
            y,
            k,
        )
    }

    /// Whether column `x`, row `y` lies any number of steps beyond the frontier.
    pub open spec fn spread_reaches(
        &self,
        marks: &Marks,
        frontier: Seq<(usize, usize)>,
        x: int,
        y: int,
    ) -> bool {
        exists|k: nat| self.spread_within(marks, frontier, x, y, k)
    }

    /// Whether a cell adjacent to column `x`, row `y` lies any number of steps
    /// beyond the frontier.
    pub open spec fn beside_reached(
        &self,
        marks: &Marks,
        frontier: Seq<(usize, usize)>,
        x: int,
        y: int,
    ) -> bool {
        ||| self.spread_reaches(marks, frontier, x - 1, y)
        ||| self.spread_reaches(marks, frontier, x, y - 1)
        ||| self.spread_reaches(marks, frontier, x + 1, y)
        ||| self.spread_reaches(marks, frontier, x, y + 1)
    }

    /// Whether a cell adjacent to column `x`, row `y` lies fewer than `k` steps
    /// beyond the frontier.
    pub open spec fn beside_before(
        &self,
        marks: &Marks,
        frontier: Seq<(usize, usize)>,
        x: int,
        y: int,
        k: nat,
    ) -> bool {
        ||| self.spread_before(marks, frontier, x - 1, y, k)
        ||| self.spread_before(marks, frontier, x, y - 1, k)
        ||| self.spread_before(marks, frontier, x + 1, y, k)
        ||| self.spread_before(marks, frontier, x, y + 1, k)
    }

    /// Whether `label` is `first` plus the number of steps that column `x`, row
    /// `y` lies beyond the frontier.
    pub open spec fn spread_label(
        &self,
        marks: &Marks,
        frontier: Seq<(usize, usize)>,
        x: int,
        y: int,
        first: usize,
        label: Option<usize>,
    ) -> bool {
        label matches Some(d) && d >= first && self.spread_at(
            marks,
            frontier,
            x,
            y,
            (d - first) as nat,
        )
    }

    /// What lies at most `k` steps beyond the frontier lies at most `m` steps
    /// beyond it for every larger `m`.
    pub proof fn lemma_spread_grows(
        &self,
        marks: &Marks,
        frontier: Seq<(usize, usize)>,
        x: int,
        y: int,
        k: nat,
        m: nat,
    )
        requires
            self.spread_within(marks, frontier, x, y, k),
            k <= m,
        ensures
            self.spread_within(marks, frontier, x, y, m),
        decreases k,
    {
        if !listed(frontier, x, y) {
            let a = (k - 1) as nat;
            let b = (m - 1) as nat;
            if self.spread_within(marks, frontier, x - 1, y, a) {
                self.lemma_spread_grows(marks, frontier, x - 1, y, a, b);
            } else if self.spread_within(marks, frontier, x, y - 1, a) {
                self.lemma_spread_grows(marks, frontier, x, y - 1, a, b);
            } else if self.spread_within(marks, frontier, x + 1, y, a) {
                self.lemma_spread_grows(marks, frontier, x + 1, y, a, b);
            } else {
                self.lemma_spread_grows(marks, frontier, x, y + 1, a, b);
            }
        }
    }

    /// A cell lies exactly one number of steps beyond the frontier, if any.
    pub proof fn lemma_spread_at_unique(
        &self,
        marks: &Marks,
        frontier: Seq<(usize, usize)>,
        x: int,
        y: int,
        k: nat,
        m: nat,
    )
        requires
            self.spread_at(marks, frontier, x, y, k),
            self.spread_at(marks, frontier, x, y, m),
        ensures
            k == m,
    {
        if k < m {
            self.lemma_spread_grows(marks, frontier, x, y, k, (m - 1) as nat);
        } else if m < k {
            self.lemma_spread_grows(marks, frontier, x, y, m, (k - 1) as nat);
        }
    }

    /// What lies some number of steps beyond the frontier lies exactly some
    /// number of steps beyond it.
    pub proof fn lemma_spread_least(
        &self,
        marks: &Marks,
        frontier: Seq<(usize, usize)>,
        x: int,
        y: int,
        k: nat,
    ) -> (least: nat)
        requires
            self.spread_within(marks, frontier, x, y, k),
        ensures
            least <= k,
            self.spread_at(marks, frontier, x, y, least),
        decreases k,
    {
        if k > 0 && self.spread_within(marks, frontier, x, y, (k - 1) as nat) {
            self.lemma_spread_least(marks, frontier, x, y, (k - 1) as nat)
        } else {
            k
        }
    }

    /// Where no cell lies exactly `j` steps beyond the frontier, none lies
    /// farther.
    pub proof fn lemma_spread_settles(
        &self,
        marks: &Marks,
        frontier: Seq<(usize, usize)>,
        j: nat,
        x: int,
        y: int,
        n: nat,
    )
        requires
            forall|a: int, b: int| #[trigger]
                self.spread_within(marks, frontier, a, b, j) ==> self.spread_before(
                    marks,
                    frontier,
                    a,
                    b,
                    j,
                ),
            self.spread_within(marks, frontier, x, y, n),
        ensures
            self.spread_before(marks, frontier, x, y, j),
        decreases n,
    {
        if listed(frontier, x, y) {
            assert(self.spread_within(marks, frontier, x, y, 0));
            self.lemma_spread_grows(marks, frontier, x, y, 0, j);
            if j > 0 {
                self.lemma_spread_grows(marks, frontier, x, y, 0, (j - 1) as nat);
            }
        } else {
            let k = (n - 1) as nat;
            if self.spread_within(marks, frontier, x - 1, y, k) {
                self.lemma_spread_settles(marks, frontier, j, x - 1, y, k);
            } else if self.spread_within(marks, frontier, x, y - 1, k) {
                self.lemma_spread_settles(marks, frontier, j, x, y - 1, k);
            } else if self.spread_within(marks, frontier, x + 1, y, k) {
                self.lemma_spread_settles(marks, frontier, j, x + 1, y, k);
            } else {
                self.lemma_spread_settles(marks, frontier, j, x, y + 1, k);
            }
            assert(self.spread_within(marks, frontier, x, y, j));
        }
    }

    /// Barriers pass nothing on: a cell that is not in the frontier and has a
    /// barrier or the edge of the grid on each of its four sides lies no number
    /// of steps beyond the frontier, and neither does a barrier.
    pub proof fn lemma_spread_blocked(
        &self,
        marks: &Marks,
        frontier: Seq<(usize, usize)>,
        x: int,
        y: int,
    )
        requires
            !self.is_open(x, y) || (!listed(frontier, x, y) && !self.is_open(x - 1, y)
                && !self.is_open(x, y - 1) && !self.is_open(x + 1, y) && !self.is_open(x, y + 1)),
        ensures
            !self.spread_reaches(marks, frontier, x, y),
    {
        assert forall|k: nat| !self.spread_within(marks, frontier, x, y, k) by {
            if k > 0 && self.is_open(x, y) {
                let j = (k - 1) as nat;
                assert(!self.spread_within(marks, frontier, x - 1, y, j));
                assert(!self.spread_within(marks, frontier, x, y - 1, j));
                assert(!self.spread_within(marks, frontier, x + 1, y, j));
                assert(!self.spread_within(marks, frontier, x, y + 1, j));
            }
        }
    }
}

} // verus!
