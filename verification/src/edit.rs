//! Edits: turning a cell into a source or a barrier and back.

use vstd::prelude::*;
use crate::cell::CellType;
use crate::grid::{Grid, GridError};
use crate::marks::{lemma_listed_push, listed};
use crate::pointer::Request;

verus! {

/// The test that every coordinate but column `x`, row `y` passes.
pub open spec fn other_than(x: usize, y: usize) -> spec_fn((usize, usize)) -> bool {
    |c: (usize, usize)| c.0 != x || c.1 != y
}

/// `list` without any occurrence of column `x`, row `y`.
pub open spec fn without(list: Seq<(usize, usize)>, x: usize, y: usize) -> Seq<(usize, usize)> {
    list.filter(other_than(x, y))
}

/// Taking a coordinate out of a list that ends in `last` takes it out of what
/// comes before, and keeps `last` unless it is that coordinate.
pub proof fn lemma_without_push(list: Seq<(usize, usize)>, last: (usize, usize), x: usize, y: usize)
    ensures
        without(Seq::<(usize, usize)>::empty(), x, y) == Seq::<(usize, usize)>::empty(),
        without(list.push(last), x, y) == (if last.0 != x || last.1 != y {
            without(list, x, y).push(last)
        } else {
            without(list, x, y)
        }),
{
    reveal(Seq::filter);
    assert(list.push(last).drop_last() =~= list);
}

/// Taking a coordinate out of a list leaves the other coordinates it named.
pub proof fn lemma_listed_without(list: Seq<(usize, usize)>, x: usize, y: usize, a: int, b: int)
    ensures
        listed(without(list, x, y), a, b) <==> listed(list, a, b) && !(a == x && b == y),
    decreases list.len(),
{
    if list.len() == 0 {
        assert(list =~= Seq::<(usize, usize)>::empty());
        lemma_without_push(list, (x, y), x, y);
        assert(!listed(list, a, b));
        assert(!listed(without(list, x, y), a, b));
    } else {
        let rest = list.drop_last();
        let last = list.last();
        lemma_listed_without(rest, x, y, a, b);
        assert(list =~= rest.push(last));
        lemma_listed_push(rest, last, a, b);
        lemma_without_push(rest, last, x, y);
        lemma_listed_push(without(rest, x, y), last, a, b);
    }
}

/// A copy of `list` without any occurrence of column `col_x`, row `row_y`, the
/// other coordinates in their order.
pub fn remove_coordinate(list: &Vec<(usize, usize)>, col_x: usize, row_y: usize) -> (kept: Vec<
    (usize, usize),
>)
    ensures
        kept@ == without(list@, col_x, row_y),
{
    let mut kept: Vec<(usize, usize)> = Vec::new();
    let mut i: usize = 0;
    proof {
        assert(list@.take(0) =~= Seq::<(usize, usize)>::empty());
        lemma_without_push(list@, (col_x, row_y), col_x, row_y);
    }
    while i < list.len()
        invariant
            i <= list@.len(),
            kept@ == without(list@.take(i as int), col_x, row_y),
        decreases list@.len() - i,
    {
        let coord = list[i];
        proof {
            assert(list@.take(i + 1) =~= list@.take(i as int).push(coord));
            lemma_without_push(list@.take(i as int), coord, col_x, row_y);
        }
        if coord.0 != col_x || coord.1 != row_y {
            kept.push(coord);
        }
        i = i + 1;
    }
    assert(list@.take(i as int) =~= list@);
    kept
}

impl Grid {
    /// Makes the cell at column `col_x`, row `row_y` a source, or stops it from
    /// being one.
    ///
    /// A cell that is a source becomes `Inactive`, keeps its label until the
    /// next pass, and its coordinate leaves `source_coordinates`, wherever it
    /// occurs there. Any other cell becomes a source, is labelled 1 at
    /// once, and its coordinate is appended to `source_coordinates`. No other
    /// cell changes. Coordinates that named the sources before name them after.
    /// Outside the grid nothing changes and `OutOfBounds` is returned.
    pub fn toggle_source(
        &mut self,
        source_coordinates: &mut Vec<(usize, usize)>,
        col_x: usize,
        row_y: usize,
    ) -> (done: Result<(), GridError>)
        requires
            old(self).wf(),
        ensures
            final(self).wf(),
            final(self).rows() == old(self).rows(),
            final(self).columns() == old(self).columns(),
            !old(self).in_bounds(col_x as int, row_y as int) ==> {
                &&& done == Err::<(), GridError>(GridError::OutOfBounds)
                &&& *final(self) == *old(self)
                &&& final(source_coordinates)@ == old(source_coordinates)@
            },
            old(self).in_bounds(col_x as int, row_y as int) ==> {
                &&& done is Ok
                &&& forall|x: int, y: int|
                    old(self).in_bounds(x, y) && !(x == col_x && y == row_y) ==> #[trigger] final(self).cell(x, y) == old(self).cell(x, y)
            },
            old(self).is_source(col_x as int, row_y as int) ==> {
                &&& final(self).kind(col_x as int, row_y as int) == CellType::Inactive
                &&& final(self).number(col_x as int, row_y as int) == old(self).number(
                    col_x as int,
                    row_y as int,
                )
                &&& final(source_coordinates)@ == without(old(source_coordinates)@, col_x, row_y)
            },
            old(self).in_bounds(col_x as int, row_y as int) && !old(self).is_source(
                col_x as int,
                row_y as int,
            ) ==> {
                &&& final(self).kind(col_x as int, row_y as int) == CellType::Source
                &&& final(self).number(col_x as int, row_y as int) == Some(1usize)
                &&& final(source_coordinates)@ == old(source_coordinates)@.push((col_x, row_y))
            },
            old(self).source_check(old(source_coordinates)@) is Ok ==> final(self).source_check(
                final(source_coordinates)@,
            ) is Ok,
    {
        if !self.contains(col_x, row_y) {
            return Err(GridError::OutOfBounds);
        }
        let ghost grid0 = *self;
        let ghost sources0 = source_coordinates@;
        let cell = self.read_cell(col_x, row_y);
        match cell.cell_type {
            CellType::Source => {
                let kept = remove_coordinate(source_coordinates, col_x, row_y);
                *source_coordinates = kept;
                let _ = self.set_cell_type(col_x, row_y, CellType::Inactive);
                proof {
                    if grid0.source_check(sources0) is Ok {
                        grid0.lemma_removal_keeps_sources(&*self, sources0, col_x, row_y);
                    }
                }
            },
            _ => {
                source_coordinates.push((col_x, row_y));
                let _ = self.set_cell_type(col_x, row_y, CellType::Source);
                proof {
                    if grid0.source_check(sources0) is Ok {
                        grid0.lemma_addition_keeps_sources(&*self, sources0, col_x, row_y);
                    }
                }
            },
        }
        Ok(())
    }

    /// Where a source stops being one and its coordinate is taken out of the
    /// list, coordinates that named the sources before still do.
    pub proof fn lemma_removal_keeps_sources(
        &self,
        after: &Grid,
        sources: Seq<(usize, usize)>,
        col_x: usize,
        row_y: usize,
    )
        requires
            self.in_bounds(col_x as int, row_y as int),
            self.source_check(sources) is Ok,
            after.rows() == self.rows(),
            after.columns() == self.columns(),
            after.kind(col_x as int, row_y as int) != CellType::Source,
            forall|x: int, y: int|
                self.in_bounds(x, y) && !(x == col_x && y == row_y) ==> #[trigger] after.cell(x, y)
                    == self.cell(x, y),
        ensures
            after.source_check(without(sources, col_x, row_y)) is Ok,
    {
        let kept = without(sources, col_x, row_y);
        assert forall|i: int| 0 <= i < kept.len() implies after.is_source(
            (#[trigger] kept[i]).0 as int,
            kept[i].1 as int,
        ) by {
            let x = kept[i].0 as int;
            let y = kept[i].1 as int;
            assert(listed(kept, x, y));
            lemma_listed_without(sources, col_x, row_y, x, y);
            let j = choose|j: int|
                0 <= j < sources.len() && j < sources.len() && (#[trigger] sources[j]).0 == x
                    && sources[j].1 == y;
            assert(self.is_source(sources[j].0 as int, sources[j].1 as int));
            assert(after.cell(x, y) == self.cell(x, y));
        }
        assert forall|x: int, y: int| #[trigger] after.is_source(x, y) implies listed(
            kept,
            x,
            y,
        ) by {
            assert(after.cell(x, y) == self.cell(x, y));
            assert(self.is_source(x, y));
            lemma_listed_without(sources, col_x, row_y, x, y);
        }
    }

    /// Where a cell becomes a source and its coordinate is appended to the
    /// list, coordinates that named the sources before still do.
    pub proof fn lemma_addition_keeps_sources(
        &self,
        after: &Grid,
        sources: Seq<(usize, usize)>,
        col_x: usize,
        row_y: usize,
    )
        requires
            self.in_bounds(col_x as int, row_y as int),
            self.source_check(sources) is Ok,
            after.rows() == self.rows(),
            after.columns() == self.columns(),
            after.kind(col_x as int, row_y as int) == CellType::Source,
            forall|x: int, y: int|
                self.in_bounds(x, y) && !(x == col_x && y == row_y) ==> #[trigger] after.cell(x, y)
                    == self.cell(x, y),
        ensures
            after.source_check(sources.push((col_x, row_y))) is Ok,
    {
        let longer = sources.push((col_x, row_y));
        assert forall|i: int| 0 <= i < longer.len() implies after.is_source(
            (#[trigger] longer[i]).0 as int,
            longer[i].1 as int,
        ) by {
            if i < sources.len() {
                assert(longer[i] == sources[i]);
                let x = sources[i].0 as int;
                let y = sources[i].1 as int;
                assert(self.is_source(x, y));
                if !(x == col_x && y == row_y) {
                    assert(after.cell(x, y) == self.cell(x, y));
                }
            }
        }
        assert forall|x: int, y: int| #[trigger] after.is_source(x, y) implies listed(
            longer,
            x,
            y,
        ) by {
            lemma_listed_push(sources, (col_x, row_y), x, y);
            if !(x == col_x && y == row_y) {
                assert(after.cell(x, y) == self.cell(x, y));
                assert(self.is_source(x, y));
            }
        }
    }

    /// Where a cell that is no source changes into something that is no source,
    /// coordinates that named the sources before still do.
    pub proof fn lemma_other_edit_keeps_sources(
        &self,
        after: &Grid,
        sources: Seq<(usize, usize)>,
        col_x: usize,
        row_y: usize,
    )
        requires
            self.in_bounds(col_x as int, row_y as int),
            self.source_check(sources) is Ok,
            after.rows() == self.rows(),
            after.columns() == self.columns(),
            self.kind(col_x as int, row_y as int) != CellType::Source,
            after.kind(col_x as int, row_y as int) != CellType::Source,
            forall|x: int, y: int|
                self.in_bounds(x, y) && !(x == col_x && y == row_y) ==> #[trigger] after.cell(x, y)
                    == self.cell(x, y),
        ensures
            after.source_check(sources) is Ok,
    {
        assert forall|i: int| 0 <= i < sources.len() implies after.is_source(
            (#[trigger] sources[i]).0 as int,
            sources[i].1 as int,
        ) by {
            let x = sources[i].0 as int;
            let y = sources[i].1 as int;
            assert(self.is_source(x, y));
            assert(after.cell(x, y) == self.cell(x, y));
        }
        assert forall|x: int, y: int| #[trigger] after.is_source(x, y) implies listed(
            sources,
            x,
            y,
        ) by {
            assert(after.cell(x, y) == self.cell(x, y));
            assert(self.is_source(x, y));
        }
    }

    /// Makes the cell at column `col_x`, row `row_y` a barrier, or stops it from
    /// being one.
    ///
    /// A barrier becomes `Inactive`; any other cell, a source too, becomes a
    /// barrier and loses its label. No other cell changes. Outside the grid
    /// nothing changes and `OutOfBounds` is returned.
    pub fn toggle_barrier(&mut self, col_x: usize, row_y: usize) -> (done: Result<(), GridError>)
        requires
            old(self).wf(),
        ensures
            final(self).wf(),
            final(self).rows() == old(self).rows(),
            final(self).columns() == old(self).columns(),
            !old(self).in_bounds(col_x as int, row_y as int) ==> {
                &&& done == Err::<(), GridError>(GridError::OutOfBounds)
                &&& *final(self) == *old(self)
            },
            old(self).in_bounds(col_x as int, row_y as int) ==> {
                &&& done is Ok
                &&& final(self).number(col_x as int, row_y as int) is None
                &&& final(self).kind(col_x as int, row_y as int) == (if old(self).kind(
                    col_x as int,
                    row_y as int,
                ) == CellType::Barrier {
                    CellType::Inactive
                } else {
                    CellType::Barrier
                })
                &&& forall|x: int, y: int|
                    old(self).in_bounds(x, y) && !(x == col_x && y == row_y) ==> #[trigger] final(self).cell(x, y) == old(self).cell(x, y)
            },
    {
        if !self.contains(col_x, row_y) {
            return Err(GridError::OutOfBounds);
        }
        let cell = self.read_cell(col_x, row_y);
        match cell.cell_type {
            CellType::Barrier => {
                let _ = self.set_cell_type(col_x, row_y, CellType::Inactive);
            },
            _ => {
                let _ = self.set_cell_type(col_x, row_y, CellType::Barrier);
            },
        }
        Ok(())
    }

    /// The kind of a cell of kind `before` once the edits of `asked` are made:
    /// first the source toggle, then the barrier toggle.
    pub open spec fn kind_after(before: CellType, asked: Request) -> CellType {
        let middle = Self::kind_between(before, asked);
        if !asked.toggle_barrier {
            middle
        } else if middle == CellType::Barrier {
            CellType::Inactive
        } else {
            CellType::Barrier
        }
    }

    /// The kind of a cell of kind `before` once the source toggle of `asked` is
    /// made, if it asks for one.
    pub open spec fn kind_between(before: CellType, asked: Request) -> CellType {
        if !asked.toggle_source {
            before
        } else if before == CellType::Source {
            CellType::Inactive
        } else {
            CellType::Source
        }
    }

    /// The label of a cell of kind `kind` and label `before` once the edits of
    /// `asked` are made.
    pub open spec fn number_after(kind: CellType, before: Option<usize>, asked: Request) -> Option<
        usize,
    > {
        if asked.toggle_barrier {
            None
        } else if asked.toggle_source && kind != CellType::Source {
            Some(1usize)
        } else {
            before
        }
    }

    /// The source coordinates once the edits of `asked` are made on column `x`,
    /// row `y`, a cell of kind `kind`: the cell's coordinate is appended where it
    /// ends as a source, and taken out where it stops being one.
    pub open spec fn sources_after(
        sources: Seq<(usize, usize)>,
        kind: CellType,
        x: usize,
        y: usize,
        asked: Request,
    ) -> Seq<(usize, usize)> {
        let middle = if !asked.toggle_source {
            sources
        } else if kind == CellType::Source {
            without(sources, x, y)
        } else {
            sources.push((x, y))
        };
        if asked.toggle_barrier && Self::kind_between(kind, asked) == CellType::Source {
            without(middle, x, y)
        } else {
            middle
        }
    }

    /// Makes the edits that `asked` names on the cell at column `col_x`, row
    /// `row_y`: first the source toggle, then the barrier toggle, taking the
    /// coordinate of a source that becomes a barrier out of
    /// `source_coordinates`. Returns whether an edit was made. No other cell
    /// changes. Coordinates that named the sources before name them after.
    /// Outside the grid nothing changes and `OutOfBounds` is returned.
    pub fn apply_request(
        &mut self,
        source_coordinates: &mut Vec<(usize, usize)>,
        col_x: usize,
        row_y: usize,
        asked: Request,
    ) -> (edited: Result<bool, GridError>)
        requires
            old(self).wf(),
        ensures
            final(self).wf(),
            final(self).rows() == old(self).rows(),
            final(self).columns() == old(self).columns(),
            !old(self).in_bounds(col_x as int, row_y as int) ==> {
                &&& edited == Err::<bool, GridError>(GridError::OutOfBounds)
                &&& *final(self) == *old(self)
                &&& final(source_coordinates)@ == old(source_coordinates)@
            },
            old(self).in_bounds(col_x as int, row_y as int) ==> {
                &&& edited == Ok::<bool, GridError>(asked.toggle_source || asked.toggle_barrier)
                &&& final(self).kind(col_x as int, row_y as int) == Self::kind_after(
                    old(self).kind(col_x as int, row_y as int),
                    asked,
                )
                &&& final(self).number(col_x as int, row_y as int) == Self::number_after(
                    old(self).kind(col_x as int, row_y as int),
                    old(self).number(col_x as int, row_y as int),
                    asked,
                )
                &&& final(source_coordinates)@ == Self::sources_after(
                    old(source_coordinates)@,
                    old(self).kind(col_x as int, row_y as int),
                    col_x,
                    row_y,
                    asked,
                )
                &&& forall|x: int, y: int|
                    old(self).in_bounds(x, y) && !(x == col_x && y == row_y) ==> #[trigger] final(self).cell(x, y) == old(self).cell(x, y)
            },
            old(self).source_check(old(source_coordinates)@) is Ok ==> final(self).source_check(
                final(source_coordinates)@,
            ) is Ok,
    {
        if !self.contains(col_x, row_y) {
            return Err(GridError::OutOfBounds);
        }
        if asked.toggle_source {
            let _ = self.toggle_source(source_coordinates, col_x, row_y);
        }
        if asked.toggle_barrier {
            let ghost grid1 = *self;
            let ghost sources1 = source_coordinates@;
            let cell = self.read_cell(col_x, row_y);
            match cell.cell_type {
                CellType::Source => {
                    let kept = remove_coordinate(source_coordinates, col_x, row_y);
                    *source_coordinates = kept;
                    let _ = self.toggle_barrier(col_x, row_y);
                    proof {
                        if grid1.source_check(sources1) is Ok {
                            grid1.lemma_removal_keeps_sources(&*self, sources1, col_x, row_y);
                        }
                    }
                },
                _ => {
                    let _ = self.toggle_barrier(col_x, row_y);
                    proof {
                        if grid1.source_check(sources1) is Ok {
                            grid1.lemma_other_edit_keeps_sources(&*self, sources1, col_x, row_y);
                        }
                    }
                },
            }
        }
        Ok(asked.toggle_source || asked.toggle_barrier)
    }
}

} // verus!
