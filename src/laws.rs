use vstd::prelude::*;
use crate::gamepad::{lemma_wrap, Universe};

verus! {

impl Universe {
    /// The cells that are alive.
    pub open spec fn live_cells(self) -> Set<(int, int)> {
        Set::new(|p: (int, int)| self.in_bounds(p.0, p.1) && self.live(p.0, p.1))
    }

    /// The cells whose changed bit is set.
    pub open spec fn changed_cells(self) -> Set<(int, int)> {
        Set::new(|p: (int, int)| self.in_bounds(p.0, p.1) && self.changed(p.0, p.1))
    }
}

/// Making a cell alive and then dead leaves it dead.
pub proof fn lemma_revive_then_kill(
    u0: Universe,
    u1: Universe,
    u2: Universe,
    row: int,
    col: int,
)
    requires
        u0.wf(),
        u0.in_bounds(row, col),
        u0.written(u1, row, col, true),
        u1.written(u2, row, col, false),
    ensures
        !u2.live(row, col),
{
}

/// Toggling a cell twice gives back the same live cells.
pub proof fn lemma_toggle_twice(u0: Universe, u1: Universe, u2: Universe, row: int, col: int)
    requires
        u0.wf(),
        u0.in_bounds(row, col),
        u0.written(u1, row, col, !u0.live(row, col)),
        u1.written(u2, row, col, !u1.live(row, col)),
    ensures
        forall|r: int, c: int| u0.in_bounds(r, c) ==> #[trigger] u2.live(r, c) == u0.live(r, c),
        u2.live_cells() == u0.live_cells(),
{
    assert(u2.live_cells() =~= u0.live_cells());
}

/// After a step the changed cells are exactly the symmetric difference of the
/// live cells before and after it.
pub proof fn lemma_changed_is_symmetric_difference(before: Universe, after: Universe)
    requires
        before.wf(),
        before.stepped(after),
    ensures
        after.changed_cells() == before.live_cells().difference(after.live_cells()).union(
            after.live_cells().difference(before.live_cells()),
        ),
{
    assert(after.changed_cells() =~= before.live_cells().difference(after.live_cells()).union(
        after.live_cells().difference(before.live_cells()),
    ));
}


/// Making a dead cell alive and then dead again gives back the same live
/// cells.
pub proof fn lemma_revive_then_kill_restores(
    u0: Universe,
    u1: Universe,
    u2: Universe,
    row: int,
    col: int,
)
    requires
        u0.wf(),
        u0.in_bounds(row, col),
        !u0.live(row, col),
        u0.written(u1, row, col, true),
        u1.written(u2, row, col, false),
    ensures
        forall|r: int, c: int| u0.in_bounds(r, c) ==> #[trigger] u2.live(r, c) == u0.live(r, c),
        u2.live_cells() == u0.live_cells(),
{
    assert(u2.live_cells() =~= u0.live_cells());
}

/// A cell is not its own neighbour: on a grid of at least three rows and
/// three columns, flipping a cell leaves its live-neighbour count as it was.
pub proof fn lemma_neighbors_ignore_center(u: Universe, u2: Universe, row: int, col: int)
    requires
        u.wf(),
        u.in_bounds(row, col),
        u.spec_height() >= 3,
        u.spec_width() >= 3,
        u.written(u2, row, col, !u.live(row, col)),
    ensures
        u2.neighbor_count(row, col) == u.neighbor_count(row, col),
{
    lemma_wrap(row, u.spec_height());
    lemma_wrap(col, u.spec_width());
}

} // verus!
