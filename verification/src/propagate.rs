//! The propagation pass: labels every cell with its distance from the nearest
//! source.

use vstd::prelude::*;
use crate::cell::CellType;
use crate::grid::{Grid, GridError};
use crate::marks::{lemma_listed_step, listed, listed_upto, Marks};

verus! {

impl Grid {
    /// Whether every coordinate of `sources` lies inside the grid.
    pub open spec fn all_in_bounds(&self, sources: Seq<(usize, usize)>) -> bool {
        forall|i: int|
            0 <= i < sources.len() ==> self.in_bounds(
                (#[trigger] sources[i]).0 as int,
                sources[i].1 as int,
            )
    }

    /// Whether `sources` names the cells of kind `Source` and no others.
    pub open spec fn sources_match(&self, sources: Seq<(usize, usize)>) -> bool {
        &&& forall|i: int|
            0 <= i < sources.len() ==> self.is_source(
                (#[trigger] sources[i]).0 as int,
                sources[i].1 as int,
            )
        &&& forall|x: int, y: int| #[trigger] self.is_source(x, y) ==> listed(sources, x, y)
    }

    /// What a propagation pass answers when handed `sources`.
    pub open spec fn source_check(&self, sources: Seq<(usize, usize)>) -> Result<(), GridError> {
        if !self.all_in_bounds(sources) {
            Err(GridError::OutOfBounds)
        } else if !self.sources_match(sources) {
            Err(GridError::SourceMismatch)
        } else {
            Ok(())
        }
    }

    /// Whether `after` and `done` are what a pass over this grid with `sources`
    /// leaves and answers.
    pub open spec fn passed(
        &self,
        sources: Seq<(usize, usize)>,
        after: &Grid,
        done: Result<(), GridError>,
    ) -> bool {
        &&& after.wf()
        &&& after.same_kinds(self)
        &&& done == self.source_check(sources)
        &&& done is Ok ==> after.labelled()
        &&& done is Err ==> *after == *self
    }

    /// Whether every coordinate of `source_coordinates` lies inside the grid.
    pub fn sources_inside(&self, source_coordinates: &Vec<(usize, usize)>) -> (inside: bool)
        ensures
            inside == self.all_in_bounds(source_coordinates@),
    {
        let mut i: usize = 0;
        while i < source_coordinates.len()
            invariant
                i <= source_coordinates@.len(),
                forall|j: int|
                    0 <= j < i ==> self.in_bounds(
                        (#[trigger] source_coordinates@[j]).0 as int,
                        source_coordinates@[j].1 as int,
                    ),
            decreases source_coordinates@.len() - i,
        {
            let coord = source_coordinates[i];
            if !self.contains(coord.0, coord.1) {
                return false;
            }
            i = i + 1;
        }
        true
    }

    /// Marks the coordinates of `source_coordinates`, provided that they are
    /// the cells of kind `Source` and no others.
    pub(crate) fn mark_sources(&self, source_coordinates: &Vec<(usize, usize)>) -> (made: Option<
        Marks,
    >)
        requires
            self.wf(),
            self.all_in_bounds(source_coordinates@),
        ensures
            made is Some <==> self.sources_match(source_coordinates@),
            made matches Some(marks) ==> {
                &&& marks.wf()
                &&& marks.rows() == self.rows()
                &&& marks.columns() == self.columns()
                &&& (source_coordinates@.len() > 0 ==> marks.count() >= 1)
                &&& forall|x: int, y: int|
                    self.in_bounds(x, y) ==> (#[trigger] marks.marked(x, y) <==> self.is_source(
                        x,
                        y,
                    ))
            },
    {
        let ghost sources = source_coordinates@;
        proof {
            self.lemma_cell_count_fits();
        }
        let mut marks = Marks::new(self.row_count(), self.column_count());
        let mut i: usize = 0;
        proof {
            assert forall|a: int, b: int| !listed_upto(sources, 0, a, b) by {}
        }
        while i < source_coordinates.len()
            invariant
                sources == source_coordinates@,
                self.wf(),
                self.all_in_bounds(sources),
                i <= sources.len(),
                marks.wf(),
                marks.rows() == self.rows(),
                marks.columns() == self.columns(),
                i > 0 ==> marks.count() >= 1,
                forall|j: int|
                    0 <= j < i ==> self.is_source(
                        (#[trigger] sources[j]).0 as int,
                        sources[j].1 as int,
                    ),
                forall|x: int, y: int|
                    self.in_bounds(x, y) ==> (#[trigger] marks.marked(x, y) <==> listed_upto(
                        sources,
                        i as int,
                        x,
                        y,
                    )),
            decreases sources.len() - i,
        {
            let coord = source_coordinates[i];
            let ghost marks1 = marks;
            let cell = self.read_cell(coord.0, coord.1);
            match cell.cell_type {
                CellType::Source => {},
                _ => {
                    return None;
                },
            }
            if !marks.is_marked(coord.0, coord.1) {
                marks.mark(coord.0, coord.1);
            }
            proof {
                assert forall|x: int, y: int| self.in_bounds(x, y) implies (
                #[trigger] marks.marked(x, y) <==> listed_upto(sources, i + 1, x, y)) by {
                    lemma_listed_step(sources, i as int, x, y);
                    assert(marks1.marked(x, y) <==> listed_upto(sources, i as int, x, y));
                }
            }
            i = i + 1;
        }
        proof {
            assert forall|x: int, y: int| self.in_bounds(x, y) implies (#[trigger] marks.marked(
                x,
                y,
            ) <==> listed(sources, x, y)) by {
                assert(listed_upto(sources, i as int, x, y) == listed(sources, x, y));
            }
        }
        let mut row_y: usize = 0;
        while row_y < self.row_count()
            invariant
                sources == source_coordinates@,
                self.wf(),
                marks.wf(),
                marks.rows() == self.rows(),
                marks.columns() == self.columns(),
                row_y <= self.rows(),
                forall|x: int, y: int|
                    self.in_bounds(x, y) ==> (#[trigger] marks.marked(x, y) <==> listed(
                        sources,
                        x,
                        y,
                    )),
                forall|x: int, y: int|
                    self.is_source(x, y) && y < row_y ==> #[trigger] marks.marked(x, y),
            decreases self.rows() - row_y,
        {
            let mut col_x: usize = 0;
            while col_x < self.column_count()
                invariant
                    sources == source_coordinates@,
                    self.wf(),
                    marks.wf(),
                    marks.rows() == self.rows(),
                    marks.columns() == self.columns(),
                    row_y < self.rows(),
                    col_x <= self.columns(),
                    forall|x: int, y: int|
                        self.in_bounds(x, y) ==> (#[trigger] marks.marked(x, y) <==> listed(
                            sources,
                            x,
                            y,
                        )),
                    forall|x: int, y: int|
                        self.is_source(x, y) && (y < row_y || (y == row_y && x < col_x))
                            ==> #[trigger] marks.marked(x, y),
                decreases self.columns() - col_x,
            {
                let cell = self.read_cell(col_x, row_y);
                let is_source = match cell.cell_type {
                    CellType::Source => true,
                    _ => false,
                };
                if is_source && !marks.is_marked(col_x, row_y) {
                    proof {
                        assert(self.is_source(col_x as int, row_y as int));
                        assert(!listed(sources, col_x as int, row_y as int));
                    }
                    return None;
                }
                col_x = col_x + 1;
            }
            row_y = row_y + 1;
        }
        proof {
            assert forall|x: int, y: int| self.in_bounds(x, y) implies (#[trigger] marks.marked(
                x,
                y,
            ) <==> self.is_source(x, y)) by {
                if marks.marked(x, y) {
                    let j = choose|j: int|
                        0 <= j < sources.len() && j < sources.len() && (#[trigger] sources[j]).0
                            == x && sources[j].1 == y;
                    assert(self.is_source(sources[j].0 as int, sources[j].1 as int));
                }
            }
            assert forall|x: int, y: int| #[trigger] self.is_source(x, y) implies listed(
                sources,
                x,
                y,
            ) by {
                assert(marks.marked(x, y));
            }
        }
        Some(marks)
    }

    /// Clears every label, except that each source keeps the label 1.
    pub(crate) fn reset_labels(&mut self)
        requires
            old(self).wf(),
        ensures
            final(self).wf(),
            final(self).same_kinds(old(self)),
            forall|x: int, y: int|
                final(self).in_bounds(x, y) ==> #[trigger] final(self).number(x, y) == (if final(self).is_source(x, y) {
                    Some(1usize)
                } else {
                    None
                }),
    {
        let ghost grid0 = *self;
        let mut row_y: usize = 0;
        while row_y < self.row_count()
            invariant
                self.wf(),
                self.same_kinds(&grid0),
                row_y <= self.rows(),
                forall|x: int, y: int|
                    self.in_bounds(x, y) && y < row_y ==> #[trigger] self.number(x, y) == (
                    if self.is_source(x, y) {
                        Some(1usize)
                    } else {
                        None
                    }),
            decreases self.rows() - row_y,
        {
            let mut col_x: usize = 0;
            while col_x < self.column_count()
                invariant
                    self.wf(),
                    self.same_kinds(&grid0),
                    row_y < self.rows(),
                    col_x <= self.columns(),
                    forall|x: int, y: int|
                        self.in_bounds(x, y) && (y < row_y || (y == row_y && x < col_x))
                            ==> #[trigger] self.number(x, y) == (if self.is_source(x, y) {
                            Some(1usize)
                        } else {
                            None
                        }),
                decreases self.columns() - col_x,
            {
                let ghost grid1 = *self;
                let cell = self.read_cell(col_x, row_y);
                let cell_number = match cell.cell_type {
                    CellType::Source => Some(1usize),
                    _ => None,
                };
                self.write_cell(col_x, row_y, cell.cell_type, cell_number);
                proof {
                    assert forall|x: int, y: int| self.in_bounds(x, y) implies #[trigger] self.kind(
                        x,
                        y,
                    ) == grid0.kind(x, y) by {
                        assert(grid1.kind(x, y) == grid0.kind(x, y));
                    }
                    assert forall|x: int, y: int|
                        self.in_bounds(x, y) && (y < row_y || (y == row_y && x < col_x + 1))
                            implies #[trigger] self.number(x, y) == (if self.is_source(x, y) {
                        Some(1usize)
                    } else {
                        None
                    }) by {
                        if !(x == col_x && y == row_y) {
                            assert(self.cell(x, y) == grid1.cell(x, y));
                            assert(grid1.number(x, y) == (if grid1.is_source(x, y) {
                                Some(1usize)
                            } else {
                                None
                            }));
                        }
                    }
                }
                col_x = col_x + 1;
            }
            row_y = row_y + 1;
        }
    }

    /// Whether column `x`, row `y` is adjacent to one of the first `upto`
    /// coordinates of `list`.
    pub open spec fn beside_listed(
        &self,
        list: Seq<(usize, usize)>,
        upto: int,
        x: int,
        y: int,
    ) -> bool {
        ||| listed_upto(list, upto, x - 1, y)
        ||| listed_upto(list, upto, x, y - 1)
        ||| listed_upto(list, upto, x + 1, y)
        ||| listed_upto(list, upto, x, y + 1)
    }

    /// The first layer: the neighbours of the sources that are no sources
    /// themselves, each once.
    pub(crate) fn initial_frontier(
        &self,
        source_coordinates: &Vec<(usize, usize)>,
        processed_cells: &mut Marks,
    ) -> (frontier: Vec<(usize, usize)>)
        requires
            self.wf(),
            self.all_in_bounds(source_coordinates@),
            old(processed_cells).wf(),
            old(processed_cells).rows() == self.rows(),
            old(processed_cells).columns() == self.columns(),
        ensures
            final(processed_cells).wf(),
            final(processed_cells).rows() == self.rows(),
            final(processed_cells).columns() == self.columns(),
            final(processed_cells).count() == old(processed_cells).count() + frontier@.len(),
            forall|a: int, b: int|
                self.in_bounds(a, b) ==> (#[trigger] final(processed_cells).marked(a, b) <==> old(
                    processed_cells,
                ).marked(a, b) || listed(frontier@, a, b)),
            forall|a: int, b: int| #[trigger]
                listed(frontier@, a, b) <==> self.in_bounds(a, b) && !old(processed_cells).marked(
                    a,
                    b,
                ) && self.beside_listed(source_coordinates@, source_coordinates@.len() as int, a, b),
    {
        let ghost marks0 = *processed_cells;
        let ghost sources = source_coordinates@;
        let mut frontier: Vec<(usize, usize)> = Vec::new();
        let mut i: usize = 0;
        proof {
            assert forall|a: int, b: int| !listed(frontier@, a, b) by {}
            assert forall|a: int, b: int| !listed_upto(sources, 0, a, b) by {}
        }
        while i < source_coordinates.len()
            invariant
                sources == source_coordinates@,
                i <= sources.len(),
                self.wf(),
                self.all_in_bounds(sources),
                processed_cells.wf(),
                processed_cells.rows() == self.rows(),
                processed_cells.columns() == self.columns(),
                processed_cells.count() == marks0.count() + frontier@.len(),
                forall|a: int, b: int|
                    self.in_bounds(a, b) ==> (#[trigger] processed_cells.marked(a, b)
                        <==> marks0.marked(a, b) || listed(frontier@, a, b)),
                forall|a: int, b: int| #[trigger]
                    listed(frontier@, a, b) <==> self.in_bounds(a, b) && !marks0.marked(a, b)
                        && self.beside_listed(sources, i as int, a, b),
            decreases sources.len() - i,
        {
            let coord = source_coordinates[i];
            let ghost marks1 = *processed_cells;
            let ghost frontier1 = frontier@;
            self.enqueue_neighbors(coord.0, coord.1, processed_cells, &mut frontier);
            proof {
                assert forall|a: int, b: int| self.in_bounds(a, b) implies (
                #[trigger] processed_cells.marked(a, b) <==> marks0.marked(a, b) || listed(
                    frontier@,
                    a,
                    b,
                )) by {
                    assert(marks1.marked(a, b) <==> marks0.marked(a, b) || listed(
                        frontier1,
                        a,
                        b,
                    ));
                    assert(listed(frontier1, a, b) <==> self.in_bounds(a, b) && !marks0.marked(a, b)
                        && self.beside_listed(sources, i as int, a, b));
                }
                assert forall|a: int, b: int| #[trigger]
                    listed(frontier@, a, b) <==> self.in_bounds(a, b) && !marks0.marked(a, b)
                        && self.beside_listed(sources, i + 1, a, b) by {
                    lemma_listed_step(sources, i as int, a - 1, b);
                    lemma_listed_step(sources, i as int, a, b - 1);
                    lemma_listed_step(sources, i as int, a + 1, b);
                    lemma_listed_step(sources, i as int, a, b + 1);
                    assert(listed(frontier1, a, b) <==> self.in_bounds(a, b) && !marks0.marked(a, b)
                        && self.beside_listed(sources, i as int, a, b));
                    if self.in_bounds(a, b) {
                        assert(marks1.marked(a, b) <==> marks0.marked(a, b) || listed(
                            frontier1,
                            a,
                            b,
                        ));
                    }
                }
            }
            i = i + 1;
        }
        frontier
    }

    /// Whether a cell adjacent to column `x`, row `y` is a source.
    pub open spec fn beside_source(&self, x: int, y: int) -> bool {
        ||| self.is_source(x - 1, y)
        ||| self.is_source(x, y - 1)
        ||| self.is_source(x + 1, y)
        ||| self.is_source(x, y + 1)
    }

    /// Whether `processed_cells` and `frontier` are what a pass starts from:
    /// the frontier holds the positions beside a source that are no sources, and
    /// the marks are the sources and the frontier.
    pub open spec fn first_layer(
        &self,
        processed_cells: &Marks,
        frontier: Seq<(usize, usize)>,
    ) -> bool {
        &&& forall|a: int, b: int| #[trigger]
            listed(frontier, a, b) <==> self.in_bounds(a, b) && !self.is_source(a, b)
                && self.beside_source(a, b)
        &&& forall|a: int, b: int|
            self.in_bounds(a, b) ==> (#[trigger] processed_cells.marked(a, b) <==> self.is_source(
                a,
                b,
            ) || listed(frontier, a, b))
    }

    /// Once the sources are marked and their neighbours queued, the pass stands
    /// at its first layer.
    pub(crate) proof fn lemma_first_layer(
        &self,
        sources: Seq<(usize, usize)>,
        marks0: &Marks,
        marks1: &Marks,
        frontier: Seq<(usize, usize)>,
    )
        requires
            self.sources_match(sources),
            forall|x: int, y: int|
                self.in_bounds(x, y) ==> (#[trigger] marks0.marked(x, y) <==> self.is_source(x, y)),
            forall|a: int, b: int|
                self.in_bounds(a, b) ==> (#[trigger] marks1.marked(a, b) <==> marks0.marked(a, b)
                    || listed(frontier, a, b)),
            forall|a: int, b: int| #[trigger]
                listed(frontier, a, b) <==> self.in_bounds(a, b) && !marks0.marked(a, b)
                    && self.beside_listed(sources, sources.len() as int, a, b),
        ensures
            self.first_layer(marks1, frontier),
            forall|x: int, y: int| #[trigger] self.is_source(x, y) ==> marks1.marked(x, y),
    {
        assert forall|x: int, y: int| #[trigger] listed(sources, x, y) implies self.is_source(
            x,
            y,
        ) by {
            let j = choose|j: int|
                0 <= j < sources.len() && j < sources.len() && (#[trigger] sources[j]).0 == x
                    && sources[j].1 == y;
            assert(self.is_source(sources[j].0 as int, sources[j].1 as int));
        }
        assert forall|x: int, y: int|
            self.beside_listed(sources, sources.len() as int, x, y) == self.beside_source(
                x,
                y,
            ) by {
            assert(listed(sources, x - 1, y) == self.is_source(x - 1, y));
            assert(listed(sources, x, y - 1) == self.is_source(x, y - 1));
            assert(listed(sources, x + 1, y) == self.is_source(x + 1, y));
            assert(listed(sources, x, y + 1) == self.is_source(x, y + 1));
        }
        assert forall|a: int, b: int| #[trigger]
            listed(frontier, a, b) <==> self.in_bounds(a, b) && !self.is_source(a, b)
                && self.beside_source(a, b) by {
            if self.in_bounds(a, b) {
                assert(marks0.marked(a, b) <==> self.is_source(a, b));
            }
        }
        assert forall|a: int, b: int| self.in_bounds(a, b) implies (#[trigger] marks1.marked(a, b)
            <==> self.is_source(a, b) || listed(frontier, a, b)) by {
            assert(marks0.marked(a, b) <==> self.is_source(a, b));
        }
    }

    /// Started from the first layer, a cell lies within `k + 1` steps of a
    /// source exactly if it is a source or lies at most `k` steps beyond the
    /// frontier.
    pub proof fn lemma_spread_is_reach(
        &self,
        processed_cells: &Marks,
        frontier: Seq<(usize, usize)>,
        x: int,
        y: int,
        k: nat,
    )
        requires
            self.first_layer(processed_cells, frontier),
        ensures
            self.within(x, y, k + 1) <==> self.is_source(x, y) || self.spread_within(
                processed_cells,
                frontier,
                x,
                y,
                k,
            ),
        decreases k,
    {
        self.lemma_step_split(x, y, k);
        assert(listed(frontier, x, y) <==> self.in_bounds(x, y) && !self.is_source(x, y)
            && self.beside_source(x, y));
        if self.in_bounds(x, y) {
            assert(processed_cells.marked(x, y) <==> self.is_source(x, y) || listed(
                frontier,
                x,
                y,
            ));
        }
        if k == 0 {
            self.lemma_within_one(x, y);
        } else {
            let j = (k - 1) as nat;
            self.lemma_spread_is_reach(processed_cells, frontier, x - 1, y, j);
            self.lemma_spread_is_reach(processed_cells, frontier, x, y - 1, j);
            self.lemma_spread_is_reach(processed_cells, frontier, x + 1, y, j);
            self.lemma_spread_is_reach(processed_cells, frontier, x, y + 1, j);
            if self.is_open(x, y) && listed(frontier, x, y) {
                self.lemma_within_one(x, y);
                self.lemma_within_grows(x, y, 1, k + 1);
            }
            if self.is_open(x - 1, y) && self.is_source(x - 1, y) {
                self.lemma_within_grows(x - 1, y, 0, k);
            }
            if self.is_open(x, y - 1) && self.is_source(x, y - 1) {
                self.lemma_within_grows(x, y - 1, 0, k);
            }
            if self.is_open(x + 1, y) && self.is_source(x + 1, y) {
                self.lemma_within_grows(x + 1, y, 0, k);
            }
            if self.is_open(x, y + 1) && self.is_source(x, y + 1) {
                self.lemma_within_grows(x, y + 1, 0, k);
            }
        }
    }

    /// Where the sources carry 1 and nothing else a label, and propagation from
    /// the first layer then labels from 2 on, every cell carries the label it
    /// is owed.
    pub(crate) proof fn lemma_pass_labels(
        &self,
        after: &Grid,
        processed_cells: &Marks,
        frontier: Seq<(usize, usize)>,
    )
        requires
            self.wf(),
            after.same_kinds(self),
            self.first_layer(processed_cells, frontier),
            forall|x: int, y: int|
                self.in_bounds(x, y) ==> #[trigger] self.number(x, y) == (if self.is_source(x, y) {
                    Some(1usize)
                } else {
                    None
                }),
            forall|x: int, y: int, k: nat| #[trigger]
                self.spread_at(processed_cells, frontier, x, y, k) ==> 2 + k <= usize::MAX
                    && after.number(x, y) == Some((2 + k) as usize),
            forall|x: int, y: int|
                self.in_bounds(x, y) && !self.spread_reaches(processed_cells, frontier, x, y)
                    ==> #[trigger] after.number(x, y) == self.number(x, y),
        ensures
            after.labelled(),
    {
        assert forall|x: int, y: int| after.in_bounds(x, y) implies after.label_ok(
            x,
            y,
            #[trigger] after.number(x, y),
        ) by {
            assert forall|n: nat| after.within(x, y, n) == self.within(x, y, n) by {
                after.lemma_within_same_kinds(self, x, y, n);
            }
            assert forall|n: nat|
                self.within(x, y, n + 1) == (self.is_source(x, y) || self.spread_within(
                    processed_cells,
                    frontier,
                    x,
                    y,
                    n,
                )) by {
                self.lemma_spread_is_reach(processed_cells, frontier, x, y, n);
            }
            assert(processed_cells.marked(x, y) <==> self.is_source(x, y) || listed(
                frontier,
                x,
                y,
            ));
            assert(listed(frontier, x, y) ==> !self.is_source(x, y));
            if self.is_source(x, y) {
                assert forall|n: nat| !self.spread_within(processed_cells, frontier, x, y, n) by {}
                assert(after.number(x, y) == Some(1usize));
                assert(self.within(x, y, 0));
            } else if self.spread_reaches(processed_cells, frontier, x, y) {
                let n = choose|n: nat| self.spread_within(processed_cells, frontier, x, y, n);
                let k = self.lemma_spread_least(processed_cells, frontier, x, y, n);
                assert(self.spread_at(processed_cells, frontier, x, y, k));
                assert(after.number(x, y) == Some((2 + k) as usize));
                assert(self.within(x, y, k + 1));
                if k > 0 {
                    assert(self.within(x, y, (k - 1) as nat + 1) == (self.is_source(x, y)
                        || self.spread_within(processed_cells, frontier, x, y, (k - 1) as nat)));
                }
                assert(!self.within(x, y, k));
            } else {
                assert(after.number(x, y) is None);
                assert forall|n: nat| !after.within(x, y, n) by {
                    if n > 0 {
                        assert(self.within(x, y, (n - 1) as nat + 1) == (self.is_source(x, y)
                            || self.spread_within(
                            processed_cells,
                            frontier,
                            x,
                            y,
                            (n - 1) as nat,
                        )));
                    }
                }
            }
        }
    }

    /// The propagation pass. Handed the coordinates of the sources, it gives
    /// every cell the label it is owed: 1 on a source, one more than the number
    /// of steps to the nearest source on a cell that can be reached from one
    /// without crossing a barrier, none on every other cell. Labels from earlier
    /// passes do not survive. The kinds of the cells do not change.
    ///
    /// The pass is refused, and the grid left as it was, with `OutOfBounds` where
    /// a coordinate lies outside the grid, and otherwise with `SourceMismatch`
    /// where the coordinates are not exactly the cells of kind `Source`.
    pub fn source_cells(&mut self, source_coordinates: &Vec<(usize, usize)>) -> (done: Result<
        (),
        GridError,
    >)
        requires
            old(self).wf(),
        ensures
            final(self).wf(),
            final(self).same_kinds(old(self)),
            done == old(self).source_check(source_coordinates@),
            done is Ok ==> final(self).labelled(),
            done is Ok ==> final(self).labelled_by_walks(),
            done is Err ==> *final(self) == *old(self),
            old(self).passed(source_coordinates@, final(self), done),
    {
        if !self.sources_inside(source_coordinates) {
            return Err(GridError::OutOfBounds);
        }
        let mut processed_cells = match self.mark_sources(source_coordinates) {
            Some(marks) => marks,
            None => {
                return Err(GridError::SourceMismatch);
            },
        };
        let ghost grid0 = *self;
        self.reset_labels();
        proof {
            assert forall|i: int| 0 <= i < source_coordinates@.len() implies self.is_source(
                (#[trigger] source_coordinates@[i]).0 as int,
                source_coordinates@[i].1 as int,
            ) by {
                let x = source_coordinates@[i].0 as int;
                let y = source_coordinates@[i].1 as int;
                assert(grid0.is_source(x, y));
                assert(self.kind(x, y) == grid0.kind(x, y));
            }
            assert forall|x: int, y: int| #[trigger] self.is_source(x, y) implies listed(
                source_coordinates@,
                x,
                y,
            ) by {
                assert(self.kind(x, y) == grid0.kind(x, y));
                assert(grid0.is_source(x, y));
            }
            assert forall|x: int, y: int| self.in_bounds(x, y) implies (
            #[trigger] processed_cells.marked(x, y) <==> self.is_source(x, y)) by {
                assert(self.kind(x, y) == grid0.kind(x, y));
            }
        }
        let ghost marks0 = processed_cells;
        let frontier = self.initial_frontier(source_coordinates, &mut processed_cells);
        let ghost grid1 = *self;
        let ghost marks1 = processed_cells;
        proof {
            self.lemma_first_layer(source_coordinates@, &marks0, &marks1, frontier@);
            assert forall|i: int| 0 <= i < frontier@.len() implies {
                let c = #[trigger] frontier@[i];
                &&& self.in_bounds(c.0 as int, c.1 as int)
                &&& marks1.marked(c.0 as int, c.1 as int)
                &&& !self.is_source(c.0 as int, c.1 as int)
            } by {
                assert(listed(frontier@, frontier@[i].0 as int, frontier@[i].1 as int));
            }
            marks1.lemma_count_bounded();
            if frontier@.len() > 0 {
                assert(listed(frontier@, frontier@[0].0 as int, frontier@[0].1 as int));
                assert(source_coordinates@.len() > 0);
            }
        }
        self.populate_cells(&frontier, 2, &mut processed_cells);
        proof {
            assert forall|x: int, y: int| self.in_bounds(x, y) implies #[trigger] self.kind(x, y)
                == grid0.kind(x, y) by {
                assert(grid1.kind(x, y) == grid0.kind(x, y));
            }
            grid1.lemma_pass_labels(&*self, &marks1, frontier@);
            self.lemma_labelled_by_walks();
        }
        Ok(())
    }
}

} // verus!
