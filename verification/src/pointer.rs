//! The pointer: which edits a hover over a cell asks for, so that a button held
//! down does not edit the same cell frame after frame.

use vstd::prelude::*;

verus! {

/// The edits that a hover over a cell asks for.
#[derive(Clone, Copy, Debug, PartialEq, Eq, Structural)]
pub struct Request {
    /// Toggle the hovered cell between source and no source.
    pub toggle_source: bool,
    /// Toggle the hovered cell between barrier and no barrier.
    pub toggle_barrier: bool,
}

/// What the pointer remembers between two hovers.
#[derive(Clone, Copy, Debug, PartialEq, Eq)]
pub struct Pointer {
    /// Whether edits are held back until the pointer reaches another cell.
    pub action_blocked: bool,
    /// The cell on which edits were last released.
    pub last_hovered_cell: (usize, usize),
}

impl Pointer {
    /// The pointer before any hover: nothing held back, the first cell remembered.
    pub open spec fn start() -> Pointer {
        Pointer { action_blocked: false, last_hovered_cell: (0usize, 0usize) }
    }

    /// The edits that a hover asks for: those whose button is down, unless edits
    /// are held back.
    pub open spec fn request(self, right_down: bool, left_down: bool) -> Request {
        Request {
            toggle_source: !self.action_blocked && right_down,
            toggle_barrier: !self.action_blocked && left_down,
        }
    }

    /// The pointer after a hover over `cell`. An edit holds further edits back;
    /// they are released, and `cell` is remembered, as soon as the hovered cell
    /// is not the remembered one.
    pub open spec fn after_hover(self, cell: (usize, usize), right_down: bool, left_down: bool)
        -> Pointer {
        let edited = !self.action_blocked && (right_down || left_down);
        let blocked = self.action_blocked || edited;
        if blocked && cell != self.last_hovered_cell {
            Pointer { action_blocked: false, last_hovered_cell: cell }
        } else {
            Pointer { action_blocked: blocked, last_hovered_cell: self.last_hovered_cell }
        }
    }

    /// The pointer before any hover.
    pub fn new() -> (pointer: Pointer)
        ensures
            pointer == Pointer::start(),
    {
        Pointer { action_blocked: false, last_hovered_cell: (0, 0) }
    }

    /// Takes note of a hover over column `col_x`, row `row_y` with the given
    /// buttons down, and returns the edits that it asks for.
    pub fn hover(&mut self, col_x: usize, row_y: usize, right_down: bool, left_down: bool) -> (asked:
        Request)
        ensures
            asked == old(self).request(right_down, left_down),
            *final(self) == old(self).after_hover((col_x, row_y), right_down, left_down),
    {
        let mut asked = Request { toggle_source: false, toggle_barrier: false };
        if !self.action_blocked {
            if right_down {
                asked.toggle_source = true;
            }
            if left_down {
                asked.toggle_barrier = true;
            }
            if right_down || left_down {
                self.action_blocked = true;
            }
        }
        if self.action_blocked {
            if col_x != self.last_hovered_cell.0 || row_y != self.last_hovered_cell.1 {
                self.last_hovered_cell = (col_x, row_y);
                self.action_blocked = false;
            }
        }
        asked
    }
}

} // verus!
