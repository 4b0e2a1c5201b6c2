//! One layer of propagation: label a frontier and queue the cells next to it.

use vstd::prelude::*;
use crate::cell::CellType;
use crate::grid::{Grid, GridError};
use crate::marks::{
    lemma_listed_concat,
    lemma_listed_push,
    lemma_listed_single,
    lemma_listed_step,
    listed,
    listed_upto,
    Marks,
};
use crate::reach::adjacent;

verus! {

impl Grid {
    /// The neighbours of a position inside the grid are the positions inside the
    /// grid that are adjacent to it.
    pub proof fn lemma_neighbors_adjacent(&self, x: int, y: int, a: int, b: int)
        requires
            self.in_bounds(x, y),
        ensures
            listed(self.neighbors(x, y), a, b) <==> self.in_bounds(a, b) && adjacent(a, b, x, y),
    {
        self.lemma_dimensions_fit();
        let left = if x > 0 {
            seq![((x - 1) as usize, y as usize)]
        } else {
            seq![]
        };
        let up = if y > 0 {
            seq![(x as usize, (y - 1) as usize)]
        } else {
            seq![]
        };
        let right = if x + 1 < self.columns() {
            seq![((x + 1) as usize, y as usize)]
        } else {
            seq![]
        };
        let down = if y + 1 < self.rows() {
            seq![(x as usize, (y + 1) as usize)]
        } else {
            seq![]
        };
        assert(self.neighbors(x, y) == left + up + right + down);
        lemma_listed_concat(left + up + right, down, a, b);
        lemma_listed_concat(left + up, right, a, b);
        lemma_listed_concat(left, up, a, b);
        lemma_listed_single(((x - 1) as usize, y as usize), a, b);
        lemma_listed_single((x as usize, (y - 1) as usize), a, b);
        lemma_listed_single(((x + 1) as usize, y as usize), a, b);
        lemma_listed_single((x as usize, (y + 1) as usize), a, b);
    }

    /// Queues the neighbours of column `col_x`, row `row_y` that were not queued
    /// before: each is marked and appended to `queue`.
    pub(crate) fn enqueue_neighbors(
        &self,
        col_x: usize,
        row_y: usize,
        processed_cells: &mut Marks,
        queue: &mut Vec<(usize, usize)>,
    )
        requires
            self.wf(),
            self.in_bounds(col_x as int, row_y as int),
            old(processed_cells).wf(),
            old(processed_cells).rows() == self.rows(),
            old(processed_cells).columns() == self.columns(),
        ensures
            final(processed_cells).wf(),
            final(processed_cells).rows() == self.rows(),
            final(processed_cells).columns() == self.columns(),
            final(processed_cells).count() - old(processed_cells).count() == final(queue)@.len()
                - old(queue)@.len(),
            final(queue)@.len() >= old(queue)@.len(),
            forall|a: int, b: int|
                self.in_bounds(a, b) ==> (#[trigger] final(processed_cells).marked(a, b) <==> old(processed_cells).marked(a, b) || adjacent(a, b, col_x as int, row_y as int)),
            forall|a: int, b: int| #[trigger]
                listed(final(queue)@, a, b) <==> listed(old(queue)@, a, b) || (self.in_bounds(a, b)
                    && adjacent(a, b, col_x as int, row_y as int) && !old(processed_cells).marked(
                    a,
                    b,
                )),
    {
        let ghost marks0 = *processed_cells;
        let ghost queue0 = queue@;
        let neighbors = match self.get_neighbor_coordinates(col_x, row_y) {
            Ok(found) => found,
            Err(_) => Vec::new(),
        };
        proof {
            assert forall|a: int, b: int| #[trigger]
                listed(neighbors@, a, b) <==> self.in_bounds(a, b) && adjacent(
                    a,
                    b,
                    col_x as int,
                    row_y as int,
                ) by {
                self.lemma_neighbors_adjacent(col_x as int, row_y as int, a, b);
            }
            assert forall|a: int, b: int| !listed_upto(neighbors@, 0, a, b) by {}
        }
        let mut k: usize = 0;
        while k < neighbors.len()
            invariant
                self.wf(),
                k <= neighbors.len(),
                processed_cells.wf(),
                processed_cells.rows() == self.rows(),
                processed_cells.columns() == self.columns(),
                processed_cells.count() - marks0.count() == queue@.len() - queue0.len(),
                queue@.len() >= queue0.len(),
                forall|a: int, b: int| #[trigger]
                    listed(neighbors@, a, b) <==> self.in_bounds(a, b) && adjacent(
                        a,
                        b,
                        col_x as int,
                        row_y as int,
                    ),
                forall|a: int, b: int|
                    self.in_bounds(a, b) ==> (#[trigger] processed_cells.marked(a, b)
                        <==> marks0.marked(a, b) || listed_upto(neighbors@, k as int, a, b)),
                forall|a: int, b: int| #[trigger]
                    listed(queue@, a, b) <==> listed(queue0, a, b) || (listed_upto(
                        neighbors@,
                        k as int,
                        a,
                        b,
                    ) && !marks0.marked(a, b)),
            decreases neighbors.len() - k,
        {
            let coord = neighbors[k];
            let ghost marks1 = *processed_cells;
            let ghost queue1 = queue@;
            proof {
                assert(listed(neighbors@, coord.0 as int, coord.1 as int));
            }
            if !processed_cells.is_marked(coord.0, coord.1) {
                processed_cells.mark(coord.0, coord.1);
                queue.push(coord);
            }
            proof {
                assert forall|a: int, b: int| self.in_bounds(a, b) implies (
                #[trigger] processed_cells.marked(a, b) <==> marks0.marked(a, b) || listed_upto(
                    neighbors@,
                    k + 1,
                    a,
                    b,
                )) by {
                    lemma_listed_step(neighbors@, k as int, a, b);
                    assert(marks1.marked(a, b) <==> marks0.marked(a, b) || listed_upto(
                        neighbors@,
                        k as int,
                        a,
                        b,
                    ));
                }
                assert forall|a: int, b: int| #[trigger]
                    listed(queue@, a, b) <==> listed(queue0, a, b) || (listed_upto(
                        neighbors@,
                        k + 1,
                        a,
                        b,
                    ) && !marks0.marked(a, b)) by {
                    lemma_listed_step(neighbors@, k as int, a, b);
                    lemma_listed_push(queue1, coord, a, b);
                    assert(listed(queue1, a, b) <==> listed(queue0, a, b) || (listed_upto(
                        neighbors@,
                        k as int,
                        a,
                        b,
                    ) && !marks0.marked(a, b)));
                    assert(marks1.marked(coord.0 as int, coord.1 as int) <==> marks0.marked(
                        coord.0 as int,
                        coord.1 as int,
                    ) || listed_upto(neighbors@, k as int, coord.0 as int, coord.1 as int));
                }
            }
            k = k + 1;
        }
        proof {
            assert forall|a: int, b: int| self.in_bounds(a, b) implies (
            #[trigger] processed_cells.marked(a, b) <==> marks0.marked(a, b) || adjacent(
                a,
                b,
                col_x as int,
                row_y as int,
            )) by {
                assert(listed_upto(neighbors@, k as int, a, b) == listed(neighbors@, a, b));
            }
            assert forall|a: int, b: int| #[trigger]
                listed(queue@, a, b) <==> listed(queue0, a, b) || (self.in_bounds(a, b)
                    && adjacent(a, b, col_x as int, row_y as int) && !marks0.marked(a, b)) by {
                assert(listed_upto(neighbors@, k as int, a, b) == listed(neighbors@, a, b));
            }
        }
    }

    /// Whether column `x`, row `y` is no barrier and among the first `upto`
    /// coordinates of `list`.
    pub open spec fn open_listed(
        &self,
        list: Seq<(usize, usize)>,
        upto: int,
        x: int,
        y: int,
    ) -> bool {
        self.is_open(x, y) && listed_upto(list, upto, x, y)
    }

    /// Whether column `x`, row `y` is adjacent to a cell that is no barrier and
    /// among the first `upto` coordinates of `list`.
    pub open spec fn fed_by(&self, list: Seq<(usize, usize)>, upto: int, x: int, y: int) -> bool {
        ||| self.open_listed(list, upto, x - 1, y)
        ||| self.open_listed(list, upto, x, y - 1)
        ||| self.open_listed(list, upto, x + 1, y)
        ||| self.open_listed(list, upto, x, y + 1)
    }

    /// One layer of propagation. Every cell of `unpopulated_coordinates` that is
    /// no barrier gets the label `new_cell_number`; the neighbours of those cells
    /// that were not marked before are marked and returned as the next layer.
    pub fn populate_layer(
        &mut self,
        unpopulated_coordinates: &Vec<(usize, usize)>,
        new_cell_number: usize,
        processed_cells: &mut Marks,
    ) -> (next: Vec<(usize, usize)>)
        requires
            old(self).wf(),
            old(processed_cells).wf(),
            old(processed_cells).rows() == old(self).rows(),
            old(processed_cells).columns() == old(self).columns(),
            forall|j: int|
                0 <= j < unpopulated_coordinates@.len() ==> old(self).in_bounds(
                    (#[trigger] unpopulated_coordinates@[j]).0 as int,
                    unpopulated_coordinates@[j].1 as int,
                ) && !old(self).is_source(
                    unpopulated_coordinates@[j].0 as int,
                    unpopulated_coordinates@[j].1 as int,
                ),
        ensures
            final(self).wf(),
            final(self).same_kinds(old(self)),
            final(processed_cells).wf(),
            final(processed_cells).rows() == old(self).rows(),
            final(processed_cells).columns() == old(self).columns(),
            final(processed_cells).count() == old(processed_cells).count() + next@.len(),
            forall|a: int, b: int|
                old(self).in_bounds(a, b) ==> #[trigger] final(self).number(a, b) == (if old(self).is_open(a, b) && listed(unpopulated_coordinates@, a, b) {
                    Some(new_cell_number)
                } else {
                    old(self).number(a, b)
                }),
            forall|a: int, b: int|
                old(self).in_bounds(a, b) ==> (#[trigger] final(processed_cells).marked(a, b)
                    <==> old(processed_cells).marked(a, b) || listed(next@, a, b)),
            forall|a: int, b: int| #[trigger]
                listed(next@, a, b) <==> old(self).in_bounds(a, b) && !old(processed_cells).marked(
                    a,
                    b,
                ) && old(self).fed_by(
                    unpopulated_coordinates@,
                    unpopulated_coordinates@.len() as int,
                    a,
                    b,
                ),
    {
        let ghost grid0 = *self;
        let ghost marks0 = *processed_cells;
        let ghost frontier = unpopulated_coordinates@;
        let mut next: Vec<(usize, usize)> = Vec::new();
        let mut i: usize = 0;
        proof {
            assert forall|a: int, b: int| !listed(next@, a, b) by {}
            assert forall|a: int, b: int| !listed_upto(frontier, 0, a, b) by {}
        }
        while i < unpopulated_coordinates.len()
            invariant
                frontier == unpopulated_coordinates@,
                i <= frontier.len(),
                grid0.wf(),
                self.wf(),
                self.same_kinds(&grid0),
                processed_cells.wf(),
                processed_cells.rows() == grid0.rows(),
                processed_cells.columns() == grid0.columns(),
                processed_cells.count() == marks0.count() + next@.len(),
                forall|j: int|
                    0 <= j < frontier.len() ==> grid0.in_bounds(
                        (#[trigger] frontier[j]).0 as int,
                        frontier[j].1 as int,
                    ) && !grid0.is_source(frontier[j].0 as int, frontier[j].1 as int),
                forall|a: int, b: int|
                    grid0.in_bounds(a, b) ==> #[trigger] self.number(a, b) == (if grid0.is_open(
                        a,
                        b,
                    ) && listed_upto(frontier, i as int, a, b) {
                        Some(new_cell_number)
                    } else {
                        grid0.number(a, b)
                    }),
                forall|a: int, b: int|
                    grid0.in_bounds(a, b) ==> (#[trigger] processed_cells.marked(a, b)
                        <==> marks0.marked(a, b) || listed(next@, a, b)),
                forall|a: int, b: int| #[trigger]
                    listed(next@, a, b) <==> grid0.in_bounds(a, b) && !marks0.marked(a, b)
                        && grid0.fed_by(frontier, i as int, a, b),
            decreases frontier.len() - i,
        {
            let coord = unpopulated_coordinates[i];
            let col_x = coord.0;
            let row_y = coord.1;
            let ghost grid1 = *self;
            let ghost marks1 = *processed_cells;
            let ghost next1 = next@;
            let cell = self.read_cell(col_x, row_y);
            let should_process = match cell.cell_type {
                CellType::Barrier => false,
                _ => true,
            };
            if should_process {
                self.write_cell(col_x, row_y, cell.cell_type, Some(new_cell_number));
                assert(self.wf());
                self.enqueue_neighbors(col_x, row_y, processed_cells, &mut next);
            }
            proof {
                assert forall|a: int, b: int| self.in_bounds(a, b) implies #[trigger] self.kind(
                    a,
                    b,
                ) == grid0.kind(a, b) by {
                    assert(grid1.kind(a, b) == grid0.kind(a, b));
                }
                assert forall|a: int, b: int| grid0.in_bounds(a, b) implies #[trigger] self.number(
                    a,
                    b,
                ) == (if grid0.is_open(a, b) && listed_upto(frontier, i + 1, a, b) {
                    Some(new_cell_number)
                } else {
                    grid0.number(a, b)
                }) by {
                    lemma_listed_step(frontier, i as int, a, b);
                    assert(grid1.number(a, b) == (if grid0.is_open(a, b) && listed_upto(
                        frontier,
                        i as int,
                        a,
                        b,
                    ) {
                        Some(new_cell_number)
                    } else {
                        grid0.number(a, b)
                    }));
                    assert(grid1.kind(a, b) == grid0.kind(a, b));
                    assert(grid1.kind(col_x as int, row_y as int) == grid0.kind(
                        col_x as int,
                        row_y as int,
                    ));
                }
                assert forall|a: int, b: int| grid0.in_bounds(a, b) implies (
                #[trigger] processed_cells.marked(a, b) <==> marks0.marked(a, b) || listed(
                    next@,
                    a,
                    b,
                )) by {
                    assert(marks1.marked(a, b) <==> marks0.marked(a, b) || listed(next1, a, b));
                    assert(listed(next1, a, b) <==> grid0.in_bounds(a, b) && !marks0.marked(a, b)
                        && grid0.fed_by(frontier, i as int, a, b));
                }
                assert forall|a: int, b: int| #[trigger]
                    listed(next@, a, b) <==> grid0.in_bounds(a, b) && !marks0.marked(a, b)
                        && grid0.fed_by(frontier, i + 1, a, b) by {
                    lemma_listed_step(frontier, i as int, a - 1, b);
                    lemma_listed_step(frontier, i as int, a, b - 1);
                    lemma_listed_step(frontier, i as int, a + 1, b);
                    lemma_listed_step(frontier, i as int, a, b + 1);
                    assert(listed(next1, a, b) <==> grid0.in_bounds(a, b) && !marks0.marked(a, b)
                        && grid0.fed_by(frontier, i as int, a, b));
                    assert(grid1.kind(col_x as int, row_y as int) == grid0.kind(
                        col_x as int,
                        row_y as int,
                    ));
                    if grid0.in_bounds(a, b) {
                        assert(marks1.marked(a, b) <==> marks0.marked(a, b) || listed(
                            next1,
                            a,
                            b,
                        ));
                    }
                }
            }
            i = i + 1;
        }
        proof {
            assert forall|a: int, b: int|
                listed_upto(frontier, i as int, a, b) == listed(frontier, a, b) by {}
        }
        next
    }

    /// What holds before the layer `j` steps beyond the first frontier is
    /// labelled: the marks are those at entry and the positions beside a cell
    /// fewer than `j` steps beyond, `frontier` holds the cells exactly `j` steps
    /// beyond, the cells fewer than `j` steps beyond carry `first` plus their
    /// number of steps, and every other cell carries what it carried at entry.
    pub closed spec fn spread_inv(
        &self,
        marks0: &Marks,
        frontier0: Seq<(usize, usize)>,
        first: usize,
        current: &Grid,
        marks: &Marks,
        frontier: Seq<(usize, usize)>,
        j: nat,
    ) -> bool {
        &&& forall|i: int|
            0 <= i < frontier.len() ==> self.in_bounds(
                (#[trigger] frontier[i]).0 as int,
                frontier[i].1 as int,
            ) && !self.is_source(frontier[i].0 as int, frontier[i].1 as int)
        &&& forall|a: int, b: int|
            self.in_bounds(a, b) ==> (#[trigger] marks.marked(a, b) <==> marks0.marked(a, b)
                || self.beside_before(marks0, frontier0, a, b, j))
        &&& forall|x: int, y: int|
            self.is_open(x, y) ==> (#[trigger] listed(frontier, x, y) <==> self.spread_at(
                marks0,
                frontier0,
                x,
                y,
                j,
            ))
        &&& forall|x: int, y: int|
            self.in_bounds(x, y) ==> (if self.spread_before(marks0, frontier0, x, y, j) {
                self.spread_label(marks0, frontier0, x, y, first, #[trigger] current.number(x, y))
            } else {
                current.number(x, y) == self.number(x, y)
            })
    }

    /// Before the first layer is labelled, nothing has changed.
    pub(crate) proof fn lemma_spread_start(
        &self,
        marks0: &Marks,
        frontier0: Seq<(usize, usize)>,
        first: usize,
    )
        requires
            forall|i: int|
                0 <= i < frontier0.len() ==> self.in_bounds(
                    (#[trigger] frontier0[i]).0 as int,
                    frontier0[i].1 as int,
                ) && !self.is_source(frontier0[i].0 as int, frontier0[i].1 as int),
        ensures
            self.spread_inv(marks0, frontier0, first, self, marks0, frontier0, 0),
    {
    }

    /// Labelling one layer and marking what lies beside it leads from one layer
    /// to the next.
    pub(crate) proof fn lemma_spread_step(
        &self,
        marks0: &Marks,
        frontier0: Seq<(usize, usize)>,
        first: usize,
        before: &Grid,
        after: &Grid,
        marks1: &Marks,
        marks2: &Marks,
        frontier: Seq<(usize, usize)>,
        next: Seq<(usize, usize)>,
        j: nat,
        label: usize,
    )
        requires
            self.spread_inv(marks0, frontier0, first, before, marks1, frontier, j),
            forall|x: int, y: int| #[trigger] listed(frontier0, x, y) ==> marks0.marked(x, y),
            forall|x: int, y: int| #[trigger] self.is_source(x, y) ==> marks0.marked(x, y),
            label == first + j,
            before.same_kinds(self),
            after.same_kinds(before),
            forall|a: int, b: int|
                before.in_bounds(a, b) ==> #[trigger] after.number(a, b) == (if before.is_open(a, b)
                    && listed(frontier, a, b) {
                    Some(label)
                } else {
                    before.number(a, b)
                }),
            forall|a: int, b: int|
                before.in_bounds(a, b) ==> (#[trigger] marks2.marked(a, b) <==> marks1.marked(a, b)
                    || listed(next, a, b)),
            forall|a: int, b: int| #[trigger]
                listed(next, a, b) <==> before.in_bounds(a, b) && !marks1.marked(a, b)
                    && before.fed_by(frontier, frontier.len() as int, a, b),
        ensures
            self.spread_inv(marks0, frontier0, first, after, marks2, next, j + 1),
    {
        let up = j + 1;
        assert forall|x: int, y: int| before.is_open(x, y) == self.is_open(x, y) by {
            if self.in_bounds(x, y) {
                assert(before.kind(x, y) == self.kind(x, y));
            }
        }
        assert forall|x: int, y: int| #[trigger]
            before.open_listed(frontier, frontier.len() as int, x, y) == self.spread_at(
                marks0,
                frontier0,
                x,
                y,
                j,
            ) by {
            if self.is_open(x, y) {
                assert(listed(frontier, x, y) <==> self.spread_at(marks0, frontier0, x, y, j));
            }
        }
        assert forall|x: int, y: int| #[trigger]
            self.spread_before(marks0, frontier0, x, y, up) == (self.spread_before(
                marks0,
                frontier0,
                x,
                y,
                j,
            ) || self.spread_at(marks0, frontier0, x, y, j)) by {
            if self.spread_before(marks0, frontier0, x, y, j) {
                self.lemma_spread_grows(marks0, frontier0, x, y, (j - 1) as nat, j);
            }
        }
        assert forall|a: int, b: int| self.in_bounds(a, b) implies (#[trigger] marks2.marked(a, b)
            <==> marks0.marked(a, b) || self.beside_before(marks0, frontier0, a, b, up)) by {
            assert(marks1.marked(a, b) <==> marks0.marked(a, b) || self.beside_before(
                marks0,
                frontier0,
                a,
                b,
                j,
            ));
            assert(listed(next, a, b) <==> before.in_bounds(a, b) && !marks1.marked(a, b)
                && before.fed_by(frontier, frontier.len() as int, a, b));
            self.lemma_spread_split(marks0, frontier0, frontier, before, a - 1, b, j);
            self.lemma_spread_split(marks0, frontier0, frontier, before, a, b - 1, j);
            self.lemma_spread_split(marks0, frontier0, frontier, before, a + 1, b, j);
            self.lemma_spread_split(marks0, frontier0, frontier, before, a, b + 1, j);
        }
        assert forall|x: int, y: int| self.is_open(x, y) implies (#[trigger] listed(next, x, y)
            <==> self.spread_at(marks0, frontier0, x, y, up)) by {
            assert(marks1.marked(x, y) <==> marks0.marked(x, y) || self.beside_before(
                marks0,
                frontier0,
                x,
                y,
                j,
            ));
            self.lemma_spread_split(marks0, frontier0, frontier, before, x - 1, y, j);
            self.lemma_spread_split(marks0, frontier0, frontier, before, x, y - 1, j);
            self.lemma_spread_split(marks0, frontier0, frontier, before, x + 1, y, j);
            self.lemma_spread_split(marks0, frontier0, frontier, before, x, y + 1, j);
            if listed(frontier0, x, y) {
                assert(self.spread_within(marks0, frontier0, x, y, 0));
                self.lemma_spread_grows(marks0, frontier0, x, y, 0, j);
            }
        }
        assert forall|i: int| 0 <= i < next.len() implies self.in_bounds(
            (#[trigger] next[i]).0 as int,
            next[i].1 as int,
        ) && !self.is_source(next[i].0 as int, next[i].1 as int) by {
            let a = next[i].0 as int;
            let b = next[i].1 as int;
            assert(listed(next, a, b));
            assert(marks1.marked(a, b) <==> marks0.marked(a, b) || self.beside_before(
                marks0,
                frontier0,
                a,
                b,
                j,
            ));
        }
        assert forall|x: int, y: int| self.in_bounds(x, y) implies (if self.spread_before(
            marks0,
            frontier0,
            x,
            y,
            up,
        ) {
            self.spread_label(marks0, frontier0, x, y, first, #[trigger] after.number(x, y))
        } else {
            after.number(x, y) == self.number(x, y)
        }) by {
            let was = before.number(x, y);
            assert(if self.spread_before(marks0, frontier0, x, y, j) {
                self.spread_label(marks0, frontier0, x, y, first, was)
            } else {
                was == self.number(x, y)
            });
            assert(before.open_listed(frontier, frontier.len() as int, x, y) == self.spread_at(
                marks0,
                frontier0,
                x,
                y,
                j,
            ));
            assert(self.spread_before(marks0, frontier0, x, y, up) == (self.spread_before(
                marks0,
                frontier0,
                x,
                y,
                j,
            ) || self.spread_at(marks0, frontier0, x, y, j)));
        }
    }

    /// A cell lies at most `j` steps beyond the first frontier exactly if it lies
    /// fewer than `j` steps beyond it or is a cell of the current frontier
    /// that is no barrier.
    pub(crate) proof fn lemma_spread_split(
        &self,
        marks0: &Marks,
        frontier0: Seq<(usize, usize)>,
        frontier: Seq<(usize, usize)>,
        before: &Grid,
        x: int,
        y: int,
        j: nat,
    )
        requires
            forall|a: int, b: int| #[trigger]
                before.open_listed(frontier, frontier.len() as int, a, b) == self.spread_at(
                    marks0,
                    frontier0,
                    a,
                    b,
                    j,
                ),
        ensures
            self.spread_within(marks0, frontier0, x, y, j) == (self.spread_before(
                marks0,
                frontier0,
                x,
                y,
                j,
            ) || before.open_listed(frontier, frontier.len() as int, x, y)),
            self.spread_before(marks0, frontier0, x, y, j + 1) == self.spread_within(
                marks0,
                frontier0,
                x,
                y,
                j,
            ),
    {
        assert(before.open_listed(frontier, frontier.len() as int, x, y) == self.spread_at(
            marks0,
            frontier0,
            x,
            y,
            j,
        ));
        if self.spread_before(marks0, frontier0, x, y, j) {
            self.lemma_spread_grows(marks0, frontier0, x, y, (j - 1) as nat, j);
        }
    }

    /// When a layer turns out empty, every cell beyond the first frontier is
    /// labelled and nothing else has changed.
    pub(crate) proof fn lemma_spread_done(
        &self,
        marks0: &Marks,
        frontier0: Seq<(usize, usize)>,
        first: usize,
        current: &Grid,
        marks: &Marks,
        j: nat,
    )
        requires
            self.spread_inv(
                marks0,
                frontier0,
                first,
                current,
                marks,
                Seq::<(usize, usize)>::empty(),
                j,
            ),
        ensures
            forall|x: int, y: int, k: nat| #[trigger]
                self.spread_at(marks0, frontier0, x, y, k) ==> first + k <= usize::MAX
                    && current.number(x, y) == Some((first + k) as usize),
            forall|x: int, y: int|
                self.in_bounds(x, y) && !self.spread_reaches(marks0, frontier0, x, y)
                    ==> #[trigger] current.number(x, y) == self.number(x, y),
            forall|x: int, y: int|
                self.in_bounds(x, y) && #[trigger] current.number(x, y) != self.number(x, y)
                    ==> current.number(x, y) is Some && current.number(x, y)->0 >= first,
            forall|a: int, b: int|
                self.in_bounds(a, b) ==> (#[trigger] marks.marked(a, b) <==> marks0.marked(a, b)
                    || self.beside_reached(marks0, frontier0, a, b)),
    {
        let none = Seq::<(usize, usize)>::empty();
        assert forall|a: int, b: int| #[trigger]
            self.spread_within(marks0, frontier0, a, b, j) implies self.spread_before(
            marks0,
            frontier0,
            a,
            b,
            j,
        ) by {
            assert(self.is_open(a, b));
            assert(!listed(none, a, b));
        }
        assert forall|x: int, y: int, k: nat| #[trigger]
            self.spread_at(marks0, frontier0, x, y, k) implies first + k <= usize::MAX
            && current.number(x, y) == Some((first + k) as usize) by {
            self.lemma_spread_settles(marks0, frontier0, j, x, y, k);
            let label = current.number(x, y);
            assert(self.spread_label(marks0, frontier0, x, y, first, label));
            self.lemma_spread_at_unique(marks0, frontier0, x, y, k, (label->0 - first) as nat);
        }
        assert forall|x: int, y: int|
            self.in_bounds(x, y) && !self.spread_reaches(
                marks0,
                frontier0,
                x,
                y,
            ) implies #[trigger] current.number(x, y) == self.number(x, y) by {
            if self.spread_before(marks0, frontier0, x, y, j) {
                assert(self.spread_within(marks0, frontier0, x, y, (j - 1) as nat));
            }
        }
        assert forall|a: int, b: int| self.in_bounds(a, b) implies (#[trigger] marks.marked(a, b)
            <==> marks0.marked(a, b) || self.beside_reached(marks0, frontier0, a, b)) by {
            self.lemma_reached_before(marks0, frontier0, j, a - 1, b);
            self.lemma_reached_before(marks0, frontier0, j, a, b - 1);
            self.lemma_reached_before(marks0, frontier0, j, a + 1, b);
            self.lemma_reached_before(marks0, frontier0, j, a, b + 1);
        }
    }

    /// Where no cell lies exactly `j` steps beyond the frontier, the cells beyond
    /// it are those fewer than `j` steps beyond.
    pub(crate) proof fn lemma_reached_before(
        &self,
        marks: &Marks,
        frontier: Seq<(usize, usize)>,
        j: nat,
        x: int,
        y: int,
    )
        requires
            forall|a: int, b: int| #[trigger]
                self.spread_within(marks, frontier, a, b, j) ==> self.spread_before(
                    marks,
                    frontier,
                    a,
                    b,
                    j,
                ),
        ensures
            self.spread_reaches(marks, frontier, x, y) == self.spread_before(
                marks,
                frontier,
                x,
                y,
                j,
            ),
    {
        if self.spread_reaches(marks, frontier, x, y) {
            let n = choose|n: nat| self.spread_within(marks, frontier, x, y, n);
            self.lemma_spread_settles(marks, frontier, j, x, y, n);
        }
        if self.spread_before(marks, frontier, x, y, j) {
            assert(self.spread_within(marks, frontier, x, y, (j - 1) as nat));
        }
    }

    /// Propagation from a frontier. Every cell of `unpopulated_coordinates` that
    /// is no barrier gets the label `new_cell_number`, and every cell that lies
    /// `k` steps beyond them gets `new_cell_number + k`, a step leading from a
    /// labelled cell to an adjacent cell that is no barrier and was not marked
    /// at entry. Every other cell keeps its label. The positions beside a
    /// labelled cell are marked, and no others.
    pub fn populate_cells(
        &mut self,
        unpopulated_coordinates: &Vec<(usize, usize)>,
        new_cell_number: usize,
        processed_cells: &mut Marks,
    )
        requires
            old(self).wf(),
            old(processed_cells).wf(),
            old(processed_cells).rows() == old(self).rows(),
            old(processed_cells).columns() == old(self).columns(),
            forall|i: int|
                0 <= i < unpopulated_coordinates@.len() ==> {
                    let c = #[trigger] unpopulated_coordinates@[i];
                    &&& old(self).in_bounds(c.0 as int, c.1 as int)
                    &&& old(processed_cells).marked(c.0 as int, c.1 as int)
                    &&& !old(self).is_source(c.0 as int, c.1 as int)
                },
            forall|x: int, y: int| #[trigger]
                old(self).is_source(x, y) ==> old(processed_cells).marked(x, y),
            unpopulated_coordinates@.len() > 0 ==> new_cell_number + (old(self).rows() * old(
                self
            ).columns() - old(processed_cells).count()) <= usize::MAX,
        ensures
            final(self).wf(),
            final(self).same_kinds(old(self)),
            final(processed_cells).wf(),
            final(processed_cells).rows() == old(self).rows(),
            final(processed_cells).columns() == old(self).columns(),
            forall|x: int, y: int, k: nat| #[trigger]
                old(self).spread_at(old(processed_cells), unpopulated_coordinates@, x, y, k)
                    ==> new_cell_number + k <= usize::MAX && final(self).number(x, y) == Some(
                    (new_cell_number + k) as usize,
                ),
            forall|x: int, y: int|
                old(self).in_bounds(x, y) && !old(self).spread_reaches(
                    old(processed_cells),
                    unpopulated_coordinates@,
                    x,
                    y,
                ) ==> #[trigger] final(self).number(x, y) == old(self).number(x, y),
            forall|x: int, y: int|
                old(self).in_bounds(x, y) && #[trigger] final(self).number(x, y) != old(
                    self
                ).number(x, y) ==> final(self).number(x, y) is Some && final(self).number(
                    x,
                    y,
                )->0 >= new_cell_number,
            forall|x: int, y: int|
                old(self).in_bounds(x, y) && (!old(self).is_open(x, y) || (!listed(
                    unpopulated_coordinates@,
                    x,
                    y,
                ) && !old(self).is_open(x - 1, y) && !old(self).is_open(x, y - 1) && !old(
                    self
                ).is_open(x + 1, y) && !old(self).is_open(x, y + 1)))
                    ==> #[trigger] final(self).number(x, y) == old(self).number(x, y),
            forall|a: int, b: int|
                old(self).in_bounds(a, b) ==> (#[trigger] final(processed_cells).marked(a, b)
                    <==> old(processed_cells).marked(a, b) || old(self).beside_reached(
                    old(processed_cells),
                    unpopulated_coordinates@,
                    a,
                    b,
                )),
    {
        let ghost grid0 = *self;
        let ghost marks0 = *processed_cells;
        let ghost frontier0 = unpopulated_coordinates@;
        let ghost mut j: nat = 0;
        proof {
            grid0.lemma_spread_start(&marks0, frontier0, new_cell_number);
            assert forall|x: int, y: int| #[trigger]
                listed(frontier0, x, y) implies marks0.marked(x, y) by {
                let i = choose|i: int|
                    0 <= i < frontier0.len() && i < frontier0.len() && (#[trigger] frontier0[i]).0
                        == x && frontier0[i].1 == y;
                assert(marks0.marked(frontier0[i].0 as int, frontier0[i].1 as int));
            }
            marks0.lemma_count_bounded();
        }
        let mut cell_number = new_cell_number;
        let mut frontier = self.populate_layer(unpopulated_coordinates, cell_number, processed_cells);
        proof {
            grid0.lemma_spread_step(
                &marks0,
                frontier0,
                new_cell_number,
                &grid0,
                &*self,
                &marks0,
                &*processed_cells,
                frontier0,
                frontier@,
                0,
                cell_number,
            );
            j = 1;
            processed_cells.lemma_count_bounded();
            if frontier@.len() > 0 {
                assert(listed(frontier@, frontier@[0].0 as int, frontier@[0].1 as int));
                assert(frontier0.len() > 0);
            }
        }
        if frontier.len() > 0 {
            cell_number = cell_number + 1;
        }
        while frontier.len() > 0
            invariant
                grid0.wf(),
                self.wf(),
                self.same_kinds(&grid0),
                processed_cells.wf(),
                processed_cells.rows() == grid0.rows(),
                processed_cells.columns() == grid0.columns(),
                forall|x: int, y: int| #[trigger] listed(frontier0, x, y) ==> marks0.marked(x, y),
                forall|x: int, y: int| #[trigger] grid0.is_source(x, y) ==> marks0.marked(x, y),
                grid0.spread_inv(
                    &marks0,
                    frontier0,
                    new_cell_number,
                    &*self,
                    &*processed_cells,
                    frontier@,
                    j,
                ),
                frontier@.len() > 0 ==> cell_number == new_cell_number + j,
                frontier@.len() > 0 ==> cell_number + (grid0.rows() * grid0.columns()
                    - processed_cells.count()) <= usize::MAX,
            decreases
                    grid0.rows() * grid0.columns() - processed_cells.count() + (if frontier@.len()
                        > 0 {
                        1int
                    } else {
                        0int
                    }),
        {
            let ghost grid1 = *self;
            let ghost marks1 = *processed_cells;
            proof {
                assert forall|i: int| 0 <= i < frontier@.len() implies self.in_bounds(
                    (#[trigger] frontier@[i]).0 as int,
                    frontier@[i].1 as int,
                ) && !self.is_source(frontier@[i].0 as int, frontier@[i].1 as int) by {
                    let x = frontier@[i].0 as int;
                    let y = frontier@[i].1 as int;
                    assert(grid0.in_bounds(x, y) && !grid0.is_source(x, y));
                    assert(self.kind(x, y) == grid0.kind(x, y));
                }
            }
            let next = self.populate_layer(&frontier, cell_number, processed_cells);
            proof {
                grid0.lemma_spread_step(
                    &marks0,
                    frontier0,
                    new_cell_number,
                    &grid1,
                    &*self,
                    &marks1,
                    &*processed_cells,
                    frontier@,
                    next@,
                    j,
                    cell_number,
                );
                j = j + 1;
                processed_cells.lemma_count_bounded();
                assert forall|x: int, y: int| self.in_bounds(x, y) implies #[trigger] self.kind(
                    x,
                    y,
                ) == grid0.kind(x, y) by {
                    assert(grid1.kind(x, y) == grid0.kind(x, y));
                }
            }
            if next.len() > 0 {
                cell_number = cell_number + 1;
            }
            frontier = next;
        }
        proof {
            assert(frontier@ =~= Seq::<(usize, usize)>::empty());
            grid0.lemma_spread_done(
                &marks0,
                frontier0,
                new_cell_number,
                &*self,
                &*processed_cells,
                j,
            );
            assert forall|x: int, y: int|
                grid0.in_bounds(x, y) && (!grid0.is_open(x, y) || (!listed(frontier0, x, y)
                    && !grid0.is_open(x - 1, y) && !grid0.is_open(x, y - 1) && !grid0.is_open(
                    x + 1,
                    y,
                ) && !grid0.is_open(x, y + 1))) implies #[trigger] self.number(x, y)
                == grid0.number(x, y) by {
                grid0.lemma_spread_blocked(&marks0, frontier0, x, y);
            }
        }
    }
}

} // verus!
