use vstd::prelude::*;
use vstd::arithmetic::div_mod::lemma_fundamental_div_mod_converse;
use bitvector::BitVector;
use crate::bits::{capacity_of, contains_bit, insert_bit, member_list, members_of, new_bits, remove_bit};

verus! {

/// The mathematical picture of a grid: its dimensions and the set of live
/// cells, each written `(x, y)` with `x` the column and `y` the row.
pub struct GridView {
    pub rows: nat,
    pub columns: nat,
    pub live: Set<(int, int)>,
}

impl GridView {
    pub open spec fn in_range(self, x: int, y: int) -> bool {
        0 <= x < self.columns && 0 <= y < self.rows
    }

    /// A cell is alive when it is among the live cells; in a well-formed view
    /// (`wf`) those lie on the grid, so every cell off the grid is dead.
    pub open spec fn alive(self, x: int, y: int) -> bool {
        self.live.contains((x, y))
    }

    /// Live cells only ever lie on the grid.
    pub open spec fn wf(self) -> bool {
        forall|p: (int, int)| #[trigger] self.live.contains(p) ==> self.in_range(p.0, p.1)
    }

    pub open spec fn same_size(self, other: GridView) -> bool {
        self.rows == other.rows && self.columns == other.columns
    }
}

/// Linear position of the cell `(x, y)` in a row-major grid.
pub open spec fn index_of(columns: int, x: int, y: int) -> int {
    y * columns + x
}

/// The cell at a linear position of a row-major grid.
pub open spec fn position_of(columns: int, index: int) -> (int, int) {
    (index % columns, index / columns)
}

/// Two cells of a row-major grid never share a linear position.
pub proof fn lemma_index_injective(columns: int, x1: int, y1: int, x2: int, y2: int)
    requires
        0 <= x1 < columns,
        0 <= x2 < columns,
        index_of(columns, x1, y1) == index_of(columns, x2, y2),
    ensures
        x1 == x2,
        y1 == y2,
{
    lemma_fundamental_div_mod_converse(index_of(columns, x1, y1), columns, y1, x1);
    lemma_fundamental_div_mod_converse(index_of(columns, x2, y2), columns, y2, x2);
}

/// Every cell on a grid has a linear position below `rows * columns`.
pub proof fn lemma_index_bound(rows: int, columns: int, x: int, y: int)
    requires
        0 <= x < columns,
        0 <= y < rows,
    ensures
        0 <= index_of(columns, x, y) < rows * columns,
{
    assert(0 <= y * columns) by (nonlinear_arith)
        requires 0 <= y, 0 <= columns;
    assert(y * columns + x < rows * columns) by (nonlinear_arith)
        requires 0 <= x < columns, 0 <= y < rows;
}

/// `position_of` undoes `index_of` on every cell of the grid, and `index_of`
/// undoes `position_of` on every linear position below `rows * columns`.
pub proof fn lemma_index_position_inverse(rows: int, columns: int, x: int, y: int, index: int)
    requires
        0 <= rows,
        0 <= columns,
    ensures
        0 <= x < columns && 0 <= y < rows ==> position_of(columns, index_of(columns, x, y)) == (x, y),
        0 <= index < rows * columns ==> {
            let p = position_of(columns, index);
            &&& 0 <= p.0 < columns
            &&& 0 <= p.1 < rows
            &&& index_of(columns, p.0, p.1) == index
        },
{
    if 0 <= x < columns && 0 <= y < rows {
        lemma_fundamental_div_mod_converse(index_of(columns, x, y), columns, y, x);
    }
    if 0 <= index < rows * columns {
        lemma_position_in_range(rows, columns, index);
    }
}

proof fn lemma_position_in_range(rows: int, columns: int, index: int)
    requires
        0 <= rows,
        0 <= columns,
        0 <= index < rows * columns,
    ensures
        0 <= position_of(columns, index).0 < columns,
        0 <= position_of(columns, index).1 < rows,
        index_of(columns, position_of(columns, index).0, position_of(columns, index).1) == index,
{
    assert(columns > 0) by (nonlinear_arith)
        requires 0 <= rows, 0 <= columns, 0 <= index < rows * columns;
    let q = index / columns;
    let r = index % columns;
    assert(index == q * columns + r && 0 <= r < columns && 0 <= q) by (nonlinear_arith)
        requires columns > 0, index >= 0, q == index / columns, r == index % columns;
    assert(q < rows) by (nonlinear_arith)
        requires index == q * columns + r, 0 <= r < columns, index < rows * columns, columns > 0;
}

/// A rectangular grid of cells, each alive or dead, packed one bit per cell
/// in row-major order.
pub struct Board {
    data: BitVector,
    rows: usize,
    columns: usize,
}

impl View for Board {
    type V = GridView;

    closed spec fn view(&self) -> GridView {
        GridView {
            rows: self.rows as nat,
            columns: self.columns as nat,
            live: Set::new(
                |p: (int, int)|
                    0 <= p.0 < self.columns && 0 <= p.1 < self.rows && members_of(self.data).contains(
                        index_of(self.columns as int, p.0, p.1) as usize,
                    ),
            ),
        }
    }
}

impl Board {
    /// The grid's size fits in memory, its bits can hold every cell, and no
    /// bit past the last cell is set.
    pub closed spec fn wf(&self) -> bool {
        &&& self.rows * self.columns <= usize::MAX
        &&& capacity_of(self.data) >= self.rows * self.columns
        &&& forall|i: usize| #[trigger] members_of(self.data).contains(i) ==> i < self.rows * self.columns
    }

    /// The live cells of a grid lie on it.
    pub proof fn lemma_view_wf(&self)
        ensures
            self@.wf(),
            self@.rows <= usize::MAX,
            self@.columns <= usize::MAX,
    {
    }

    /// An all-dead grid of the given size.
    pub fn new(rows: usize, columns: usize) -> (r: Board)
        requires
            rows * columns + 63 <= usize::MAX,
        ensures
            r.wf(),
            r@ == (GridView { rows: rows as nat, columns: columns as nat, live: Set::empty() }),
    {
        let r = Board { data: new_bits(rows * columns), rows, columns };
        assert(r@.live =~= Set::empty());
        r
    }

    pub fn rows(&self) -> (r: usize)
        ensures
            r == self@.rows,
    {
        self.rows
    }

    pub fn columns(&self) -> (r: usize)
        ensures
            r == self@.columns,
    {
        self.columns
    }

    /// Whether the grid has exactly the given dimensions.
    pub fn is_current(&self, rows: usize, columns: usize) -> (r: bool)
        ensures
            r == (self@.rows == rows && self@.columns == columns),
    {
        self.rows == rows && self.columns == columns
    }

    /// The linear position of `(x, y)`, or `None` off the grid.
    pub fn get_index(&self, x: usize, y: usize) -> (r: Option<usize>)
        requires
            self.wf(),
        ensures
            r == if self@.in_range(x as int, y as int) {
                Some(index_of(self@.columns as int, x as int, y as int) as usize)
            } else {
                None::<usize>
            },
            r matches Some(i) ==> i < self@.rows * self@.columns,
    {
        if x >= self.columns || y >= self.rows {
            None
        } else {
            proof {
                lemma_index_bound(self.rows as int, self.columns as int, x as int, y as int);
            }
            Some(y * self.columns + x)
        }
    }

    /// The cell at a linear position, or `None` past the last cell.
    pub fn get_position(&self, index: usize) -> (r: Option<(usize, usize)>)
        requires
            self.wf(),
        ensures
            r == if index < self@.rows * self@.columns {
                Some(
                    (
                        position_of(self@.columns as int, index as int).0 as usize,
                        position_of(self@.columns as int, index as int).1 as usize,
                    ),
                )
            } else {
                None::<(usize, usize)>
            },
            r matches Some(p) ==> self@.in_range(p.0 as int, p.1 as int) && index_of(
                self@.columns as int,
                p.0 as int,
                p.1 as int,
            ) == index,
    {
        if index >= self.rows * self.columns {
            None
        } else {
            proof {
                lemma_position_in_range(self.rows as int, self.columns as int, index as int);
            }
            Some((index % self.columns, index / self.columns))
        }
    }

    /// Whether `(x, y)` is alive; every cell off the grid reads as dead.
    pub fn get(&self, x: usize, y: usize) -> (r: bool)
        requires
            self.wf(),
        ensures
            r == self@.alive(x as int, y as int),
    {
        match self.get_index(x, y) {
            None => false,
            Some(index) => contains_bit(&self.data, index),
        }
    }

    /// Every live cell, once each, in row-major order.
    pub fn live_cells(&self) -> (r: Vec<(usize, usize)>)
        requires
            self.wf(),
        ensures
            forall|k: int| 0 <= k < r@.len() ==> self@.alive(#[trigger] r@[k].0 as int, r@[k].1 as int),
            forall|x: int, y: int|
                #![trigger self@.alive(x, y)]
                self@.alive(x, y) ==> exists|k: int| 0 <= k < r@.len() && #[trigger] r@[k] == (x as usize, y as usize),
            forall|i: int, j: int|
                0 <= i < j < r@.len() ==> index_of(self@.columns as int, r@[i].0 as int, r@[i].1 as int) < index_of(
                    self@.columns as int,
                    r@[j].0 as int,
                    r@[j].1 as int,
                ),
    {
        let indices = member_list(&self.data);
        let mut cells: Vec<(usize, usize)> = Vec::new();
        let mut k: usize = 0;
        while k < indices.len()
            invariant
                self.wf(),
                indices@.to_set() == members_of(self.data),
                k <= indices@.len(),
                cells@.len() == k,
                forall|m: int| 0 <= m < k ==> {
                    &&& self@.in_range(#[trigger] cells@[m].0 as int, cells@[m].1 as int)
                    &&& index_of(self.columns as int, cells@[m].0 as int, cells@[m].1 as int) == indices@[m]
                },
            decreases indices@.len() - k,
        {
            let index = indices[k];
            assert(indices@.to_set().contains(indices@[k as int]));
            match self.get_position(index) {
                Some(p) => {
                    cells.push(p);
                },
                None => {
                    assert(false);
                },
            }
            k += 1;
        }
        proof {
            assert forall|x: int, y: int|
                #![trigger self@.alive(x, y)]
                self@.alive(x, y) implies exists|k: int| 0 <= k < cells@.len() && #[trigger] cells@[k] == (x as usize, y as usize) by {
                lemma_index_bound(self.rows as int, self.columns as int, x, y);
                let index = index_of(self.columns as int, x, y) as usize;
                assert(indices@.to_set().contains(index));
                let k = choose|k: int| 0 <= k < indices@.len() && indices@[k] == index;
                lemma_index_injective(self.columns as int, cells@[k].0 as int, cells@[k].1 as int, x, y);
                assert(cells@[k] == (x as usize, y as usize));
            }
            assert forall|k: int| 0 <= k < cells@.len() implies self@.alive(#[trigger] cells@[k].0 as int, cells@[k].1 as int) by {
                assert(indices@.to_set().contains(indices@[k]));
            }
        }
        cells
    }

    /// Makes `(x, y)` alive. Off the grid nothing changes and the result is
    /// `None`; on it the result says whether the cell was dead before.
    pub fn set(&mut self, x: usize, y: usize) -> (r: Option<bool>)
        requires
            old(self).wf(),
        ensures
            final(self).wf(),
            final(self)@.same_size(old(self)@),
            old(self)@.in_range(x as int, y as int) ==> {
                &&& final(self)@.live == old(self)@.live.insert((x as int, y as int))
                &&& r == Some(!old(self)@.alive(x as int, y as int))
            },
            !old(self)@.in_range(x as int, y as int) ==> final(self)@ == old(self)@ && r is None,
    {
        match self.get_index(x, y) {
            None => None,
            Some(index) => {
                let ghost before = self@;
                let changed = insert_bit(&mut self.data, index);
                proof {
                    assert forall|p: (int, int)| #[trigger] self@.live.contains(p) == before.live.insert(
                        (x as int, y as int),
                    ).contains(p) by {
                        if before.in_range(p.0, p.1) && p != (x as int, y as int) {
                            lemma_other_cell_other_bit(
                                self.rows as int,
                                self.columns as int,
                                x as int,
                                y as int,
                                p.0,
                                p.1,
                            );
                        }
                    }
                    assert(self@.live =~= before.live.insert((x as int, y as int)));
                }
                Some(changed)
            },
        }
    }

    /// Makes `(x, y)` dead. Off the grid nothing changes and the result is
    /// `None`; on it the result says whether the cell was alive before.
    pub fn unset(&mut self, x: usize, y: usize) -> (r: Option<bool>)
        requires
            old(self).wf(),
        ensures
            final(self).wf(),
            final(self)@.same_size(old(self)@),
            old(self)@.in_range(x as int, y as int) ==> {
                &&& final(self)@.live == old(self)@.live.remove((x as int, y as int))
                &&& r == Some(old(self)@.alive(x as int, y as int))
            },
            !old(self)@.in_range(x as int, y as int) ==> final(self)@ == old(self)@ && r is None,
    {
        match self.get_index(x, y) {
            None => None,
            Some(index) => {
                let ghost before = self@;
                let changed = remove_bit(&mut self.data, index);
                proof {
                    assert forall|p: (int, int)| #[trigger] self@.live.contains(p) == before.live.remove(
                        (x as int, y as int),
                    ).contains(p) by {
                        if before.in_range(p.0, p.1) && p != (x as int, y as int) {
                            lemma_other_cell_other_bit(
                                self.rows as int,
                                self.columns as int,
                                x as int,
                                y as int,
                                p.0,
                                p.1,
                            );
                        }
                    }
                    assert(self@.live =~= before.live.remove((x as int, y as int)));
                }
                Some(changed)
            },
        }
    }
}

/// Two different cells of a grid occupy different bits.
proof fn lemma_other_cell_other_bit(rows: int, columns: int, x: int, y: int, px: int, py: int)
    requires
        rows * columns <= usize::MAX,
        0 <= x < columns,
        0 <= y < rows,
        0 <= px < columns,
        0 <= py < rows,
        (px, py) != (x, y),
    ensures
        index_of(columns, px, py) as usize != index_of(columns, x, y) as usize,
{
    lemma_index_bound(rows, columns, x, y);
    lemma_index_bound(rows, columns, px, py);
    if index_of(columns, px, py) == index_of(columns, x, y) {
        lemma_index_injective(columns, px, py, x, y);
    }
}

} // verus!
