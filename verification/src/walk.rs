//! Walks from a source, and why a label is the length of the shortest one.

use vstd::prelude::*;
use crate::grid::Grid;
use crate::reach::adjacent;

verus! {

impl Grid {
    /// Whether `walk` starts on a source and goes on, step by step, from one cell
    /// that is no barrier to an adjacent one.
    pub open spec fn is_walk(&self, walk: Seq<(int, int)>) -> bool {
        &&& walk.len() > 0
        &&& self.is_source(walk[0].0, walk[0].1)
        &&& forall|i: int| 0 <= i < walk.len() ==> self.is_open((#[trigger] walk[i]).0, walk[i].1)
        &&& forall|i: int|
            0 < i < walk.len() ==> adjacent(
                walk[i - 1].0,
                walk[i - 1].1,
                (#[trigger] walk[i]).0,
                walk[i].1,
            )
    }

    /// Whether `walk` is a walk from a source that ends at column `x`, row `y`.
    pub open spec fn walk_to(&self, walk: Seq<(int, int)>, x: int, y: int) -> bool {
        self.is_walk(walk) && walk.last() == (x, y)
    }

    /// Where a walk of `n` steps ends, a source lies within `n` steps.
    pub proof fn lemma_walk_within(&self, walk: Seq<(int, int)>, x: int, y: int)
        requires
            self.walk_to(walk, x, y),
        ensures
            self.within(x, y, (walk.len() - 1) as nat),
        decreases walk.len(),
    {
        let last = walk.len() - 1;
        assert(self.is_open(walk[last].0, walk[last].1));
        if walk.len() > 1 {
            let shorter = walk.drop_last();
            let before = walk[last - 1];
            assert(adjacent(before.0, before.1, walk[last].0, walk[last].1));
            assert(self.is_walk(shorter)) by {
                assert(shorter[0] == walk[0]);
                assert forall|i: int| 0 <= i < shorter.len() implies self.is_open(
                    (#[trigger] shorter[i]).0,
                    shorter[i].1,
                ) by {
                    assert(shorter[i] == walk[i]);
                }
                assert forall|i: int| 0 < i < shorter.len() implies adjacent(
                    shorter[i - 1].0,
                    shorter[i - 1].1,
                    (#[trigger] shorter[i]).0,
                    shorter[i].1,
                ) by {
                    assert(shorter[i] == walk[i]);
                    assert(shorter[i - 1] == walk[i - 1]);
                }
            }
            self.lemma_walk_within(shorter, before.0, before.1);
        }
    }

    /// A walk to column `x`, row `y` stays a walk when it goes on to an adjacent
    /// cell that is no barrier.
    pub proof fn lemma_walk_extends(&self, walk: Seq<(int, int)>, x: int, y: int, a: int, b: int)
        requires
            self.walk_to(walk, x, y),
            self.is_open(a, b),
            adjacent(x, y, a, b),
        ensures
            self.walk_to(walk.push((a, b)), a, b),
    {
        let longer = walk.push((a, b));
        assert(longer[0] == walk[0]);
        assert forall|i: int| 0 <= i < longer.len() implies self.is_open(
            (#[trigger] longer[i]).0,
            longer[i].1,
        ) by {
            if i < walk.len() {
                assert(longer[i] == walk[i]);
            }
        }
        assert forall|i: int| 0 < i < longer.len() implies adjacent(
            longer[i - 1].0,
            longer[i - 1].1,
            (#[trigger] longer[i]).0,
            longer[i].1,
        ) by {
            assert(longer[i - 1] == walk[i - 1]);
            if i < walk.len() {
                assert(longer[i] == walk[i]);
            }
        }
    }

    /// Where a source lies within `n` steps, a walk of at most `n` steps ends.
    pub proof fn lemma_within_walk(&self, x: int, y: int, n: nat) -> (walk: Seq<(int, int)>)
        requires
            self.within(x, y, n),
        ensures
            self.walk_to(walk, x, y),
            walk.len() <= n + 1,
        decreases n,
    {
        if self.is_source(x, y) {
            seq![(x, y)]
        } else {
            let k = (n - 1) as nat;
            let (a, b) = if self.within(x - 1, y, k) {
                (x - 1, y)
            } else if self.within(x, y - 1, k) {
                (x, y - 1)
            } else if self.within(x + 1, y, k) {
                (x + 1, y)
            } else {
                (x, y + 1)
            };
            let shorter = self.lemma_within_walk(a, b, k);
            self.lemma_walk_extends(shorter, a, b, x, y);
            shorter.push((x, y))
        }
    }

    /// A labelled cell carries the number of cells on the shortest walk from a
    /// source to it, which is one more than the number of steps: some walk has
    /// that many cells and none has fewer.
    pub proof fn lemma_label_is_shortest_walk(&self, x: int, y: int, label: usize) -> (walk: Seq<
        (int, int),
    >)
        requires
            self.in_bounds(x, y),
            self.label_ok(x, y, Some(label)),
        ensures
            self.walk_to(walk, x, y),
            walk.len() == label,
            forall|other: Seq<(int, int)>| #[trigger]
                self.walk_to(other, x, y) ==> other.len() >= label,
    {
        let steps = (label - 1) as nat;
        let walk = self.lemma_within_walk(x, y, steps);
        assert forall|other: Seq<(int, int)>| #[trigger]
            self.walk_to(other, x, y) implies other.len() >= label by {
            self.lemma_walk_within(other, x, y);
            if other.len() < label {
                self.lemma_within_grows(x, y, (other.len() - 1) as nat, (steps - 1) as nat);
            }
        }
        assert(walk.len() >= label);
        walk
    }

    /// A cell is owed no label exactly if no walk from a source ends on it.
    pub proof fn lemma_unlabelled_is_unreachable(&self, x: int, y: int)
        ensures
            self.label_ok(x, y, None) <==> forall|walk: Seq<(int, int)>|
                !#[trigger] self.walk_to(walk, x, y),
    {
        if self.label_ok(x, y, None) {
            assert forall|walk: Seq<(int, int)>| !#[trigger] self.walk_to(walk, x, y) by {
                if self.walk_to(walk, x, y) {
                    self.lemma_walk_within(walk, x, y);
                }
            }
        }
        if forall|walk: Seq<(int, int)>| !#[trigger] self.walk_to(walk, x, y) {
            assert forall|n: nat| !self.within(x, y, n) by {
                if self.within(x, y, n) {
                    let walk = self.lemma_within_walk(x, y, n);
                    assert(self.walk_to(walk, x, y));
                }
            }
        }
    }

    /// Whether `label` counts the cells on the shortest walk from a source to
    /// column `x`, row `y`, or is none where there is no such walk.
    pub open spec fn shortest_walk_label(&self, x: int, y: int, label: Option<usize>) -> bool {
        match label {
            Some(d) => {
                &&& exists|walk: Seq<(int, int)>| #[trigger]
                    self.walk_to(walk, x, y) && walk.len() == d
                &&& forall|other: Seq<(int, int)>| #[trigger]
                    self.walk_to(other, x, y) ==> other.len() >= d
            },
            None => forall|walk: Seq<(int, int)>| !#[trigger] self.walk_to(walk, x, y),
        }
    }

    /// Whether every cell is labelled with the number of cells on the shortest
    /// walk from a source to it, and unlabelled where there is none.
    pub open spec fn labelled_by_walks(&self) -> bool {
        forall|x: int, y: int|
            self.in_bounds(x, y) ==> self.shortest_walk_label(x, y, #[trigger] self.number(x, y))
    }

    /// The label that a cell is owed is the one that the shortest walk gives.
    pub proof fn lemma_label_by_walks(&self, x: int, y: int, label: Option<usize>)
        requires
            self.in_bounds(x, y),
        ensures
            self.label_ok(x, y, label) <==> self.shortest_walk_label(x, y, label),
    {
        match label {
            Some(d) => {
                if self.label_ok(x, y, label) {
                    let walk = self.lemma_label_is_shortest_walk(x, y, d);
                    assert(self.walk_to(walk, x, y) && walk.len() == d);
                }
                if self.shortest_walk_label(x, y, label) {
                    let walk = choose|walk: Seq<(int, int)>| #[trigger]
                        self.walk_to(walk, x, y) && walk.len() == d;
                    self.lemma_walk_within(walk, x, y);
                    if d >= 2 && self.within(x, y, (d - 2) as nat) {
                        let shorter = self.lemma_within_walk(x, y, (d - 2) as nat);
                        assert(self.walk_to(shorter, x, y));
                    }
                }
            },
            None => {
                self.lemma_unlabelled_is_unreachable(x, y);
            },
        }
    }

    /// Both ways of saying that every cell carries the label it is owed agree.
    pub proof fn lemma_labelled_by_walks(&self)
        ensures
            self.labelled() <==> self.labelled_by_walks(),
    {
        if self.labelled() {
            assert forall|x: int, y: int| self.in_bounds(x, y) implies self.shortest_walk_label(
                x,
                y,
                #[trigger] self.number(x, y),
            ) by {
                self.lemma_label_by_walks(x, y, self.number(x, y));
            }
        }
        if self.labelled_by_walks() {
            assert forall|x: int, y: int| self.in_bounds(x, y) implies self.label_ok(
                x,
                y,
                #[trigger] self.number(x, y),
            ) by {
                self.lemma_label_by_walks(x, y, self.number(x, y));
            }
        }
    }
}

} // verus!
