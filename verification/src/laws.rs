//! What holds of every labelled grid.

use vstd::prelude::*;
use crate::cell::CellType;
use crate::grid::{Grid, GridError};

verus! {

/// Two grids with the same kinds that both carry the labels they are owed carry
/// the same labels: what a propagation pass leaves depends on the kinds alone,
/// not on the pass nor on the labels that were there before.
pub proof fn lemma_labels_determined(first: &Grid, second: &Grid)
    requires
        first.same_kinds(second),
        first.labelled(),
        second.labelled(),
    ensures
        forall|x: int, y: int|
            first.in_bounds(x, y) ==> #[trigger] first.number(x, y) == second.number(x, y),
{
    assert forall|x: int, y: int| first.in_bounds(x, y) implies #[trigger] first.number(x, y)
        == second.number(x, y) by {
        let a = first.number(x, y);
        let b = second.number(x, y);
        assert(second.label_ok(x, y, b));
        assert forall|n: nat| first.within(x, y, n) == second.within(x, y, n) by {
            first.lemma_within_same_kinds(second, x, y, n);
        }
        assert(first.label_ok(x, y, b));
        first.lemma_label_unique(x, y, a, b);
    }
}

/// A barrier carries no label, whether or not a pass has run.
pub proof fn lemma_barrier_unlabelled(grid: &Grid, x: int, y: int)
    requires
        grid.wf(),
        grid.in_bounds(x, y),
        grid.kind(x, y) == CellType::Barrier,
    ensures
        grid.number(x, y) is None,
{
}

/// A source carries the label 1, whether or not a pass has run.
pub proof fn lemma_source_labelled_one(grid: &Grid, x: int, y: int)
    requires
        grid.wf(),
        grid.is_source(x, y),
    ensures
        grid.number(x, y) == Some(1usize),
{
}

/// After a pass, a cell that no walk from a source reaches carries no label.
pub proof fn lemma_unreachable_unlabelled(grid: &Grid, x: int, y: int)
    requires
        grid.labelled(),
        grid.in_bounds(x, y),
        forall|walk: Seq<(int, int)>| !#[trigger] grid.walk_to(walk, x, y),
    ensures
        grid.number(x, y) is None,
{
    grid.lemma_unlabelled_is_unreachable(x, y);
    grid.lemma_label_unique(x, y, grid.number(x, y), None);
}

/// After a pass, a cell that is no source and has a barrier or the edge of the
/// grid on each of its four sides carries no label.
pub proof fn lemma_enclosed_unlabelled(grid: &Grid, x: int, y: int)
    requires
        grid.labelled(),
        grid.in_bounds(x, y),
        !grid.is_source(x, y),
        !grid.is_open(x - 1, y),
        !grid.is_open(x, y - 1),
        !grid.is_open(x + 1, y),
        !grid.is_open(x, y + 1),
    ensures
        grid.number(x, y) is None,
{
    assert forall|n: nat| !grid.within(x, y, n) by {
        if n > 0 {
            assert(!grid.within(x - 1, y, (n - 1) as nat));
            assert(!grid.within(x, y - 1, (n - 1) as nat));
            assert(!grid.within(x + 1, y, (n - 1) as nat));
            assert(!grid.within(x, y + 1, (n - 1) as nat));
        }
    }
    grid.lemma_label_unique(x, y, grid.number(x, y), None);
}

/// After a pass on a grid without sources, no cell carries a label.
pub proof fn lemma_no_source_no_label(grid: &Grid, x: int, y: int)
    requires
        grid.labelled(),
        grid.in_bounds(x, y),
        forall|a: int, b: int| !#[trigger] grid.is_source(a, b),
    ensures
        grid.number(x, y) is None,
{
    assert forall|n: nat| !grid.within(x, y, n) by {
        lemma_no_source_none_within(grid, x, y, n);
    }
    grid.lemma_label_unique(x, y, grid.number(x, y), None);
}

/// Without sources, no cell lies within any number of steps of one.
pub proof fn lemma_no_source_none_within(grid: &Grid, x: int, y: int, n: nat)
    requires
        forall|a: int, b: int| !#[trigger] grid.is_source(a, b),
    ensures
        !grid.within(x, y, n),
    decreases n,
{
    if n > 0 {
        let k = (n - 1) as nat;
        lemma_no_source_none_within(grid, x - 1, y, k);
        lemma_no_source_none_within(grid, x, y - 1, k);
        lemma_no_source_none_within(grid, x + 1, y, k);
        lemma_no_source_none_within(grid, x, y + 1, k);
    }
}

/// A pass is answered by the kinds and the coordinates alone: on two grids with
/// the same kinds it is accepted or refused alike, and where it is accepted it
/// leaves the same labels, whatever labels the grids carried before.
pub proof fn lemma_pass_deterministic(
    first: &Grid,
    second: &Grid,
    sources: Seq<(usize, usize)>,
    first_after: &Grid,
    second_after: &Grid,
    first_done: Result<(), GridError>,
    second_done: Result<(), GridError>,
)
    requires
        first.same_kinds(second),
        first.passed(sources, first_after, first_done),
        second.passed(sources, second_after, second_done),
    ensures
        first_done == second_done,
        first_done is Ok ==> forall|x: int, y: int|
            first.in_bounds(x, y) ==> #[trigger] first_after.number(x, y) == second_after.number(
                x,
                y,
            ),
{
    assert forall|x: int, y: int| first.is_source(x, y) == second.is_source(x, y) by {
        if first.in_bounds(x, y) {
            assert(first.kind(x, y) == second.kind(x, y));
        }
    }
    assert(first.all_in_bounds(sources) == second.all_in_bounds(sources));
    assert(first.sources_match(sources) == second.sources_match(sources));
    if first_done is Ok {
        assert forall|x: int, y: int| first_after.in_bounds(x, y) implies #[trigger] first_after.kind(
            x,
            y,
        ) == second_after.kind(x, y) by {
            assert(first.kind(x, y) == second.kind(x, y));
            assert(second_after.kind(x, y) == second.kind(x, y));
        }
        lemma_labels_determined(first_after, second_after);
    }
}

/// A second pass with the same coordinates is answered as the first and
/// changes no label.
pub proof fn lemma_second_pass_changes_nothing(
    before: &Grid,
    sources: Seq<(usize, usize)>,
    after: &Grid,
    done: Result<(), GridError>,
    again: &Grid,
    done_again: Result<(), GridError>,
)
    requires
        before.passed(sources, after, done),
        after.passed(sources, again, done_again),
    ensures
        done_again == done,
        forall|x: int, y: int|
            before.in_bounds(x, y) ==> #[trigger] again.number(x, y) == after.number(x, y),
{
    assert forall|x: int, y: int| before.is_source(x, y) == after.is_source(x, y) by {
        if before.in_bounds(x, y) {
            assert(after.kind(x, y) == before.kind(x, y));
        }
    }
    assert(before.all_in_bounds(sources) == after.all_in_bounds(sources));
    assert(before.sources_match(sources) == after.sources_match(sources));
    if done is Ok {
        lemma_labels_determined(again, after);
    }
}

/// After a pass that was accepted, a cell that no walk from a source reaches
/// carries no label, whatever it carried before.
pub proof fn lemma_pass_leaves_unreachable_unlabelled(
    before: &Grid,
    sources: Seq<(usize, usize)>,
    after: &Grid,
    x: int,
    y: int,
)
    requires
        before.passed(sources, after, Ok(())),
        before.in_bounds(x, y),
        forall|walk: Seq<(int, int)>| !#[trigger] after.walk_to(walk, x, y),
    ensures
        after.number(x, y) is None,
{
    lemma_unreachable_unlabelled(after, x, y);
}

/// After a pass, accepted or refused, every coordinate handed in that names a
/// source carries the label 1.
pub proof fn lemma_pass_keeps_sources_at_one(
    before: &Grid,
    sources: Seq<(usize, usize)>,
    after: &Grid,
    done: Result<(), GridError>,
    i: int,
)
    requires
        before.passed(sources, after, done),
        0 <= i < sources.len(),
        before.is_source(sources[i].0 as int, sources[i].1 as int),
    ensures
        after.number(sources[i].0 as int, sources[i].1 as int) == Some(1usize),
{
    let x = sources[i].0 as int;
    let y = sources[i].1 as int;
    assert(after.kind(x, y) == before.kind(x, y));
    assert(after.is_source(x, y));
}

} // verus!
