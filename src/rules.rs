use vstd::prelude::*;
use crate::grid::{Board, GridView};

verus! {

/// 1 for a live cell, 0 for a dead one (every cell off the grid is dead).
pub open spec fn cell_value(g: GridView, x: int, y: int) -> nat {
    if g.alive(x, y) {
        1
    } else {
        0
    }
}

/// The number of live cells among the eight that surround `(x, y)`.
pub open spec fn neighbor_count(g: GridView, x: int, y: int) -> nat {
    cell_value(g, x - 1, y - 1) + cell_value(g, x, y - 1) + cell_value(g, x + 1, y - 1)
        + cell_value(g, x - 1, y) + cell_value(g, x + 1, y)
        + cell_value(g, x - 1, y + 1) + cell_value(g, x, y + 1) + cell_value(g, x + 1, y + 1)
}

/// The life rule: a live cell survives with two or three live neighbors, a
/// dead cell is born with exactly three.
pub open spec fn rule(alive: bool, neighbors: int) -> bool {
    if alive {
        2 <= neighbors <= 3
    } else {
        neighbors == 3
    }
}

/// Whether `(x, y)` is alive in the generation after `g`.
pub open spec fn next_alive(g: GridView, x: int, y: int) -> bool {
    rule(g.alive(x, y), neighbor_count(g, x, y) as int)
}

/// The generation after `g`, laid out on a grid of `rows` by `columns`.
pub open spec fn step_into(g: GridView, rows: nat, columns: nat) -> GridView {
    GridView {
        rows,
        columns,
        live: Set::new(|p: (int, int)| 0 <= p.0 < columns && 0 <= p.1 < rows && next_alive(g, p.0, p.1)),
    }
}

/// The grid `n` generations after `g`, on `g`'s own dimensions.
pub open spec fn generation(g: GridView, n: nat) -> GridView
    decreases n,
{
    if n == 0 {
        g
    } else {
        step_into(generation(g, (n - 1) as nat), g.rows, g.columns)
    }
}

/// What one scan of a cell's neighborhood finds.
pub struct CellStatus {
    pub alive: bool,
    pub neighbors: usize,
}

/// Live cells in column `x` among the rows `y - 1 .. y - 1 + j`.
spec fn column_sum(g: GridView, x: int, y: int, j: nat) -> nat
    decreases j,
{
    if j == 0 {
        0
    } else {
        column_sum(g, x, y, (j - 1) as nat) + cell_value(g, x, y - 1 + (j - 1))
    }
}

/// Live cells in the columns `x - 1 .. x - 1 + i` of the 3 by 3 block around
/// `(x, y)`, the center included.
spec fn block_sum(g: GridView, x: int, y: int, i: nat) -> nat
    decreases i,
{
    if i == 0 {
        0
    } else {
        block_sum(g, x, y, (i - 1) as nat) + column_sum(g, x - 1 + (i - 1), y, 3)
    }
}

proof fn lemma_block_sum(g: GridView, x: int, y: int)
    ensures
        block_sum(g, x, y, 3) == neighbor_count(g, x, y) + cell_value(g, x, y),
{
    reveal_with_fuel(block_sum, 4);
    reveal_with_fuel(column_sum, 4);
}

/// Scans the 3 by 3 block around `(x, y)`: whether the cell itself is alive,
/// and how many of its eight neighbors are. Neighbors off the grid count as
/// dead; the grid does not wrap around.
pub fn check_cell(x: usize, y: usize, board: &Board) -> (r: CellStatus)
    requires
        board.wf(),
    ensures
        r.alive == board@.alive(x as int, y as int),
        r.neighbors == neighbor_count(board@, x as int, y as int),
{
    let ghost g = board@;
    proof {
        board.lemma_view_wf();
    }
    let mut status = CellStatus { alive: false, neighbors: 0 };
    let mut i: usize = 0;
    while i < 3
        invariant
            i <= 3,
            status.neighbors + (if status.alive { 1int } else { 0 }) == block_sum(g, x as int, y as int, i as nat),
            status.alive == (i > 1 && g.alive(x as int, y as int)),
            status.neighbors <= 3 * i,
            g == board@,
            g.wf(),
            g.columns <= usize::MAX,
            g.rows <= usize::MAX,
            board.wf(),
        decreases 3 - i,
    {
        let ghost column: int = x as int - 1 + i as int;
        if (i == 0 && x == 0) || (i == 2 && x == usize::MAX) {
            proof {
                assert(column_sum(g, column, y as int, 3) == 0) by {
                    reveal_with_fuel(column_sum, 4);
                }
            }
            i += 1;
            continue;
        }
        let neighbor_x: usize = if i == 0 { x - 1 } else if i == 1 { x } else { x + 1 };
        let mut j: usize = 0;
        while j < 3
            invariant
                i < 3,
                j <= 3,
                neighbor_x == column,
                column == x as int - 1 + i as int,
                status.neighbors + (if status.alive { 1int } else { 0 }) == block_sum(g, x as int, y as int, i as nat)
                    + column_sum(g, column, y as int, j as nat),
                status.alive == ((i > 1 || (i == 1 && j > 1)) && g.alive(x as int, y as int)),
                status.neighbors <= 3 * i + j,
                g == board@,
                g.wf(),
                g.columns <= usize::MAX,
                g.rows <= usize::MAX,
                board.wf(),
            decreases 3 - j,
        {
            if (j == 0 && y == 0) || (j == 2 && y == usize::MAX) {
                j += 1;
                continue;
            }
            let neighbor_y: usize = if j == 0 { y - 1 } else if j == 1 { y } else { y + 1 };
            proof {
                assert(neighbor_y == y as int - 1 + j as int);
                assert((neighbor_x == x && neighbor_y == y) == (i == 1 && j == 1));
                assert(column_sum(g, column, y as int, (j + 1) as nat) == column_sum(g, column, y as int, j as nat)
                    + cell_value(g, column, neighbor_y as int));
            }
            if board.get(neighbor_x, neighbor_y) {
                if neighbor_x == x && neighbor_y == y {
                    status.alive = true;
                } else {
                    status.neighbors += 1;
                }
            }
            j += 1;
        }
        i += 1;
    }
    proof {
        lemma_block_sum(g, x as int, y as int);
    }
    status
}

/// Whether a live cell with `neighbors` live neighbors stays alive: it dies of
/// underpopulation below two and of overpopulation above three.
pub fn will_survive(neighbors: usize) -> (r: bool)
    ensures
        r == (2 <= neighbors <= 3),
{
    if neighbors < 2 {
        false
    } else if neighbors > 3 {
        false
    } else {
        true
    }
}

/// Whether a cell is alive in the next generation.
pub fn will_live(status: &CellStatus) -> (r: bool)
    ensures
        r == rule(status.alive, status.neighbors as int),
{
    if status.alive {
        will_survive(status.neighbors)
    } else {
        status.neighbors == 3
    }
}

/// Writes into `new` the generation after `previous`, cell by cell over `new`'s
/// own dimensions; cells of `previous` outside them are only read as neighbors,
/// and cells of `new` outside `previous` see a dead surrounding.
pub fn evaluate_board(new: &mut Board, previous: &Board)
    requires
        old(new).wf(),
        previous.wf(),
    ensures
        final(new).wf(),
        final(new)@ == step_into(previous@, old(new)@.rows, old(new)@.columns),
{
    let ghost rows = new@.rows;
    let ghost columns = new@.columns;
    let rows_n = new.rows();
    let columns_n = new.columns();
    let mut y: usize = 0;
    while y < rows_n
        invariant
            new.wf(),
            new@.rows == rows,
            new@.columns == columns,
            rows_n == rows,
            columns_n == columns,
            previous.wf(),
            y <= rows,
            forall|px: int, py: int|
                0 <= px < columns && 0 <= py < y ==> #[trigger] new@.alive(px, py) == next_alive(previous@, px, py),
        decreases rows - y,
    {
        let mut x: usize = 0;
        while x < columns_n
            invariant
                new.wf(),
                new@.rows == rows,
                new@.columns == columns,
                rows_n == rows,
                columns_n == columns,
                previous.wf(),
                y < rows,
                x <= columns,
                forall|px: int, py: int|
                    (0 <= px < columns && 0 <= py < y) || (0 <= px < x && py == y) ==> #[trigger] new@.alive(px, py)
                        == next_alive(previous@, px, py),
            decreases columns - x,
        {
            let status = check_cell(x, y, previous);
            let ghost before = new@;
            if will_live(&status) {
                new.set(x, y);
            } else {
                new.unset(x, y);
            }
            assert forall|px: int, py: int| (px, py) != (x as int, y as int) implies #[trigger] new@.alive(px, py)
                == before.alive(px, py) by {}
            x += 1;
        }
        y += 1;
    }
    proof {
        new.lemma_view_wf();
        let next = step_into(previous@, rows, columns);
        assert forall|p: (int, int)| #[trigger] new@.live.contains(p) == next.live.contains(p) by {
            if 0 <= p.0 < columns && 0 <= p.1 < rows {
                assert(new@.alive(p.0, p.1) == next_alive(previous@, p.0, p.1));
            }
        }
        assert(new@.live =~= next.live);
    }
}

/// A live cell stays alive through one generation exactly when two or three
/// of its neighbors are alive; with any other count it dies.
pub proof fn lemma_survival(g: GridView, rows: nat, columns: nat, x: int, y: int)
    requires
        0 <= x < columns,
        0 <= y < rows,
        g.alive(x, y),
    ensures
        step_into(g, rows, columns).alive(x, y) == (2 <= neighbor_count(g, x, y) <= 3),
{
}

/// A dead cell comes alive in one generation exactly when three of its
/// neighbors are alive; with any other count it stays dead.
pub proof fn lemma_birth(g: GridView, rows: nat, columns: nat, x: int, y: int)
    requires
        0 <= x < columns,
        0 <= y < rows,
        !g.alive(x, y),
    ensures
        step_into(g, rows, columns).alive(x, y) == (neighbor_count(g, x, y) == 3),
{
}

/// The 2 by 2 block whose top-left cell is `(x, y)`.
pub open spec fn block_at(x: int, y: int) -> Set<(int, int)> {
    set![(x, y), (x + 1, y), (x, y + 1), (x + 1, y + 1)]
}

/// Three cells in a row centered on `(x, y)`.
pub open spec fn horizontal_line(x: int, y: int) -> Set<(int, int)> {
    set![(x - 1, y), (x, y), (x + 1, y)]
}

/// Three cells in a column centered on `(x, y)`.
pub open spec fn vertical_line(x: int, y: int) -> Set<(int, int)> {
    set![(x, y - 1), (x, y), (x, y + 1)]
}

proof fn lemma_block_step(g: GridView, x: int, y: int)
    requires
        0 <= x,
        x + 1 < g.columns,
        0 <= y,
        y + 1 < g.rows,
        g.live == block_at(x, y),
    ensures
        step_into(g, g.rows, g.columns) == g,
{
    let next = step_into(g, g.rows, g.columns);
    assert forall|p: (int, int)| #[trigger] next.live.contains(p) == g.live.contains(p) by {
        if 0 <= p.0 < g.columns && 0 <= p.1 < g.rows {
            assert(next_alive(g, p.0, p.1) == block_at(x, y).contains(p));
        }
    }
    assert(next.live =~= g.live);
}

/// A lone 2 by 2 block anywhere on the grid is a still life: every later
/// generation equals the first.
pub proof fn lemma_block_still_life(g: GridView, x: int, y: int, n: nat)
    requires
        0 <= x,
        x + 1 < g.columns,
        0 <= y,
        y + 1 < g.rows,
        g.live == block_at(x, y),
    ensures
        generation(g, n) == g,
    decreases n,
{
    if n > 0 {
        lemma_block_still_life(g, x, y, (n - 1) as nat);
        lemma_block_step(g, x, y);
    }
}

proof fn lemma_blinker_turns_vertical(g: GridView, x: int, y: int)
    requires
        1 <= x,
        x + 1 < g.columns,
        1 <= y,
        y + 1 < g.rows,
        g.live == horizontal_line(x, y),
    ensures
        step_into(g, g.rows, g.columns).live == vertical_line(x, y),
{
    let next = step_into(g, g.rows, g.columns);
    assert forall|p: (int, int)| #[trigger] next.live.contains(p) == vertical_line(x, y).contains(p) by {
        if 0 <= p.0 < g.columns && 0 <= p.1 < g.rows {
            assert(next_alive(g, p.0, p.1) == vertical_line(x, y).contains(p));
        }
    }
    assert(next.live =~= vertical_line(x, y));
}

proof fn lemma_blinker_turns_horizontal(g: GridView, x: int, y: int)
    requires
        1 <= x,
        x + 1 < g.columns,
        1 <= y,
        y + 1 < g.rows,
        g.live == vertical_line(x, y),
    ensures
        step_into(g, g.rows, g.columns).live == horizontal_line(x, y),
{
    let next = step_into(g, g.rows, g.columns);
    assert forall|p: (int, int)| #[trigger] next.live.contains(p) == horizontal_line(x, y).contains(p) by {
        if 0 <= p.0 < g.columns && 0 <= p.1 < g.rows {
            assert(next_alive(g, p.0, p.1) == horizontal_line(x, y).contains(p));
        }
    }
    assert(next.live =~= horizontal_line(x, y));
}

/// A horizontal line of three cells with a free cell above and below its
/// middle is an oscillator of period two: it turns into a vertical line on
/// odd generations and back into itself on even ones.
pub proof fn lemma_blinker(g: GridView, x: int, y: int, n: nat)
    requires
        1 <= x,
        x + 1 < g.columns,
        1 <= y,
        y + 1 < g.rows,
        g.live == horizontal_line(x, y),
    ensures
        generation(g, n).rows == g.rows,
        generation(g, n).columns == g.columns,
        generation(g, n).live == if n % 2 == 0 {
            horizontal_line(x, y)
        } else {
            vertical_line(x, y)
        },
        n == 2 ==> generation(g, n) == g,
    decreases n,
{
    if n > 0 {
        lemma_blinker(g, x, y, (n - 1) as nat);
        let prev = generation(g, (n - 1) as nat);
        if (n - 1) % 2 == 0 {
            lemma_blinker_turns_vertical(prev, x, y);
        } else {
            lemma_blinker_turns_horizontal(prev, x, y);
        }
    }
}

} // verus!
