//! The set of positions that a propagation pass has already queued.

use vstd::prelude::*;
use crate::grid::{flat_index, lemma_flat_index_bounds, lemma_flat_index_injective};

verus! {

/// Whether one of the first `upto` coordinates of `list` is column `x`, row `y`.
pub open spec fn listed_upto(list: Seq<(usize, usize)>, upto: int, x: int, y: int) -> bool {
    exists|j: int| 0 <= j < upto && j < list.len() && (#[trigger] list[j]).0 == x && list[j].1 == y
}

/// Whether `list` names column `x`, row `y`.
pub open spec fn listed(list: Seq<(usize, usize)>, x: int, y: int) -> bool {
    listed_upto(list, list.len() as int, x, y)
}

/// Looking at one more coordinate of the list finds that coordinate and what was
/// found before.
pub proof fn lemma_listed_step(list: Seq<(usize, usize)>, upto: int, x: int, y: int)
    requires
        0 <= upto < list.len(),
    ensures
        listed_upto(list, upto + 1, x, y) <==> listed_upto(list, upto, x, y) || (list[upto].0 == x
            && list[upto].1 == y),
{
    if listed_upto(list, upto + 1, x, y) {
        let j = choose|j: int|
            0 <= j < upto + 1 && j < list.len() && (#[trigger] list[j]).0 == x && list[j].1 == y;
        if j < upto {
            assert(listed_upto(list, upto, x, y));
        }
    }
    if listed_upto(list, upto, x, y) {
        let j = choose|j: int|
            0 <= j < upto && j < list.len() && (#[trigger] list[j]).0 == x && list[j].1 == y;
        assert(0 <= j < upto + 1 && list[j].0 == x);
    }
    if list[upto].0 == x && list[upto].1 == y {
        assert(listed_upto(list, upto + 1, x, y));
    }
}

/// A list with one more coordinate names that coordinate and what it named before.
pub proof fn lemma_listed_push(list: Seq<(usize, usize)>, p: (usize, usize), x: int, y: int)
    ensures
        listed(list.push(p), x, y) <==> listed(list, x, y) || (p.0 == x && p.1 == y),
{
    let longer = list.push(p);
    if listed(longer, x, y) {
        let j = choose|j: int|
            0 <= j < longer.len() && j < longer.len() && (#[trigger] longer[j]).0 == x
                && longer[j].1 == y;
        if j < list.len() {
            assert(list[j] == longer[j]);
            assert(listed(list, x, y));
        }
    }
    if listed(list, x, y) {
        let j = choose|j: int|
            0 <= j < list.len() && j < list.len() && (#[trigger] list[j]).0 == x && list[j].1 == y;
        assert(longer[j] == list[j]);
        assert(listed(longer, x, y));
    }
    if p.0 == x && p.1 == y {
        assert(longer[list.len() as int] == p);
        assert(listed(longer, x, y));
    }
}

/// A list made of two names what either of them names.
pub proof fn lemma_listed_concat(
    first: Seq<(usize, usize)>,
    second: Seq<(usize, usize)>,
    x: int,
    y: int,
)
    ensures
        listed(first + second, x, y) <==> listed(first, x, y) || listed(second, x, y),
{
    let both = first + second;
    if listed(both, x, y) {
        let j = choose|j: int|
            0 <= j < both.len() && j < both.len() && (#[trigger] both[j]).0 == x && both[j].1 == y;
        if j < first.len() {
            assert(first[j] == both[j]);
            assert(listed(first, x, y));
        } else {
            assert(second[j - first.len()] == both[j]);
            assert(listed(second, x, y));
        }
    }
    if listed(first, x, y) {
        let j = choose|j: int|
            0 <= j < first.len() && j < first.len() && (#[trigger] first[j]).0 == x && first[j].1
                == y;
        assert(both[j] == first[j]);
        assert(listed(both, x, y));
    }
    if listed(second, x, y) {
        let j = choose|j: int|
            0 <= j < second.len() && j < second.len() && (#[trigger] second[j]).0 == x
                && second[j].1 == y;
        assert(both[first.len() + j] == second[j]);
        assert(listed(both, x, y));
    }
}

/// A list of one coordinate names that coordinate alone.
pub proof fn lemma_listed_single(p: (usize, usize), x: int, y: int)
    ensures
        listed(seq![p], x, y) <==> p.0 == x && p.1 == y,
        !listed(Seq::<(usize, usize)>::empty(), x, y),
{
    let one = seq![p];
    if p.0 == x && p.1 == y {
        assert(one[0] == p);
        assert(listed(one, x, y));
    }
    if listed(one, x, y) {
        let j = choose|j: int|
            0 <= j < one.len() && j < one.len() && (#[trigger] one[j]).0 == x && one[j].1 == y;
        assert(j == 0);
    }
}

/// How many entries of `bits` are set.
pub open spec fn count_set(bits: Seq<bool>) -> nat
    decreases bits.len(),
{
    if bits.len() == 0 {
        0
    } else {
        count_set(bits.drop_last()) + if bits.last() {
            1nat
        } else {
            0nat
        }
    }
}

/// No more entries are set than there are entries.
pub proof fn lemma_count_set_bounded(bits: Seq<bool>)
    ensures
        count_set(bits) <= bits.len(),
    decreases bits.len(),
{
    if bits.len() > 0 {
        lemma_count_set_bounded(bits.drop_last());
    }
}

/// Where no entry is set, the count is zero.
pub proof fn lemma_count_set_none(bits: Seq<bool>)
    requires
        forall|i: int| 0 <= i < bits.len() ==> !bits[i],
    ensures
        count_set(bits) == 0,
    decreases bits.len(),
{
    if bits.len() > 0 {
        lemma_count_set_none(bits.drop_last());
    }
}

/// Setting an entry that was clear raises the count by one.
pub proof fn lemma_count_set_update(bits: Seq<bool>, i: int)
    requires
        0 <= i < bits.len(),
        !bits[i],
    ensures
        count_set(bits.update(i, true)) == count_set(bits) + 1,
    decreases bits.len(),
{
    let after = bits.update(i, true);
    if i == bits.len() - 1 {
        assert(after.drop_last() =~= bits.drop_last());
    } else {
        assert(after.drop_last() =~= bits.drop_last().update(i, true));
        lemma_count_set_update(bits.drop_last(), i);
    }
}

/// One mark per grid position.
pub struct Marks {
    bits: Vec<bool>,
    row_count_y: usize,
    column_count_x: usize,
}

impl Marks {
    /// Number of rows covered.
    pub closed spec fn rows(&self) -> int {
        self.row_count_y as int
    }

    /// Number of columns covered.
    pub closed spec fn columns(&self) -> int {
        self.column_count_x as int
    }

    /// There is exactly one mark for each position.
    pub closed spec fn wf(&self) -> bool {
        self.bits@.len() == self.rows() * self.columns()
    }

    /// Whether column `x`, row `y` is marked.
    pub closed spec fn marked(&self, x: int, y: int) -> bool {
        self.bits@[flat_index(self.columns(), x, y)]
    }

    /// How many positions are marked.
    pub closed spec fn count(&self) -> nat {
        count_set(self.bits@)
    }

    /// No more positions are marked than there are positions.
    pub proof fn lemma_count_bounded(&self)
        requires
            self.wf(),
        ensures
            self.count() <= self.rows() * self.columns(),
            self.rows() * self.columns() <= usize::MAX,
    {
        lemma_count_set_bounded(self.bits@);
        assert(self.bits@.len() == self.bits.len());
    }

    /// Marks for a grid of `row_count` rows and `column_count` columns, none set.
    pub fn new(row_count: usize, column_count: usize) -> (made: Marks)
        requires
            row_count * column_count <= usize::MAX,
        ensures
            made.wf(),
            made.rows() == row_count,
            made.columns() == column_count,
            made.count() == 0,
            forall|x: int, y: int|
                0 <= x < column_count && 0 <= y < row_count ==> !#[trigger] made.marked(x, y),
    {
        let total: usize = row_count * column_count;
        let bits: Vec<bool> = vec![false; total];
        let made = Marks { bits, row_count_y: row_count, column_count_x: column_count };
        proof {
            lemma_count_set_none(made.bits@);
            assert forall|x: int, y: int|
                0 <= x < column_count && 0 <= y < row_count implies !#[trigger] made.marked(
                x,
                y,
            ) by {
                lemma_flat_index_bounds(column_count as int, row_count as int, x, y);
            }
        }
        made
    }

    /// Whether column `col_x`, row `row_y` is marked.
    pub fn is_marked(&self, col_x: usize, row_y: usize) -> (found: bool)
        requires
            self.wf(),
            col_x < self.columns(),
            row_y < self.rows(),
        ensures
            found == self.marked(col_x as int, row_y as int),
    {
        proof {
            lemma_flat_index_bounds(self.columns(), self.rows(), col_x as int, row_y as int);
            assert(self.bits@.len() == self.bits.len());
        }
        self.bits[row_y * self.column_count_x + col_x]
    }

    /// Marks column `col_x`, row `row_y`. The count rises by one where the
    /// position was not marked before, and stays where it was.
    pub fn mark(&mut self, col_x: usize, row_y: usize)
        requires
            old(self).wf(),
            col_x < old(self).columns(),
            row_y < old(self).rows(),
        ensures
            final(self).wf(),
            final(self).rows() == old(self).rows(),
            final(self).columns() == old(self).columns(),
            final(self).count() == old(self).count() + (if old(self).marked(
                col_x as int,
                row_y as int,
            ) {
                0nat
            } else {
                1nat
            }),
            final(self).marked(col_x as int, row_y as int),
            forall|x: int, y: int|
                0 <= x < old(self).columns() && 0 <= y < old(self).rows() && !(x == col_x && y
                    == row_y) ==> #[trigger] final(self).marked(x, y) == old(self).marked(x, y),
    {
        proof {
            lemma_flat_index_bounds(self.columns(), self.rows(), col_x as int, row_y as int);
            assert(self.bits@.len() == self.bits.len());
        }
        let i: usize = row_y * self.column_count_x + col_x;
        let ghost before = *self;
        self.bits.set(i, true);
        proof {
            if before.bits@[i as int] {
                assert(before.bits@.update(i as int, true) =~= before.bits@);
            } else {
                lemma_count_set_update(before.bits@, i as int);
            }
            assert forall|x: int, y: int|
                0 <= x < before.columns() && 0 <= y < before.rows() && !(x == col_x && y
                    == row_y) implies #[trigger] self.marked(x, y) == before.marked(x, y) by {
                lemma_flat_index_bounds(self.columns(), self.rows(), x, y);
                if flat_index(self.columns(), x, y) == i {
                    lemma_flat_index_injective(self.columns(), x, y, col_x as int, row_y as int);
                }
            }
        }
    }
}

} // verus!
