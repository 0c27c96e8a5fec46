use vstd::prelude::*;
use crate::grid::{Board, GridView};
use crate::rules::{evaluate_board, step_into};

verus! {

/// The shortest time between two frames, in nanoseconds.
pub const FRAME_PERIOD_NANOS: u128 = 50_000_000;

/// Whether the spare grid can take the next generation: it exists and has
/// the given dimensions.
pub fn can_reuse_board(spare: &Option<Board>, rows: usize, columns: usize) -> (r: bool)
    ensures
        r == (spare matches Some(b) && b@.rows == rows && b@.columns == columns),
{
    match spare {
        None => false,
        Some(board) => board.is_current(rows, columns),
    }
}

/// How long to wait after a frame that took `elapsed` nanoseconds so that
/// frames are at least `period` nanoseconds apart.
pub fn frame_pause(elapsed: u128, period: u128) -> (r: u128)
    ensures
        r == if elapsed < period {
            period - elapsed
        } else {
            0
        },
{
    if elapsed < period {
        period - elapsed
    } else {
        0
    }
}

/// The two grids of a running simulation: the one on display, and a spare
/// that the next generation is written into when its size still fits.
pub struct Life {
    pub current: Board,
    pub spare: Option<Board>,
}

impl Life {
    pub open spec fn wf(&self) -> bool {
        &&& self.current.wf()
        &&& self.spare matches Some(b) ==> b.wf()
    }

    /// Starts from a seeded grid, with no spare yet.
    pub fn new(current: Board) -> (r: Life)
        requires
            current.wf(),
        ensures
            r.wf(),
            r.current@ == current@,
            r.spare is None,
    {
        Life { current, spare: None }
    }

    /// Advances one generation on a grid of `rows` by `columns`, the size the
    /// display reports now. The spare grid is reused when it has that size;
    /// otherwise a fresh grid of that size is made, so a resize never keeps a
    /// grid of the old size. The grid that was on display becomes the spare.
    pub fn tick(&mut self, rows: usize, columns: usize)
        requires
            old(self).wf(),
            rows * columns + 63 <= usize::MAX,
        ensures
            final(self).wf(),
            final(self).current@ == step_into(old(self).current@, rows as nat, columns as nat),
            final(self).spare matches Some(b) && b@ == old(self).current@,
    {
        let reuse = can_reuse_board(&self.spare, rows, columns);
        let mut work = if reuse {
            match self.spare.take() {
                Some(b) => b,
                None => Board::new(rows, columns),
            }
        } else {
            Board::new(rows, columns)
        };
        evaluate_board(&mut work, &self.current);
        std::mem::swap(&mut self.current, &mut work);
        self.spare = Some(work);
    }
}

/// A resize between two ticks: the generation written after it has exactly
/// the newly reported dimensions, and none of its live cells lies outside
/// them, whatever the size of the grid it was computed from.
pub proof fn lemma_resize(g: GridView, rows: nat, columns: nat)
    ensures
        step_into(g, rows, columns).rows == rows,
        step_into(g, rows, columns).columns == columns,
        step_into(g, rows, columns).wf(),
{
}

} // verus!
