//! The marked cells of one level, held as a dense bitmap over its grid.
use vstd::prelude::*;

verus! {

/// A cell of a level's tile grid: column `x`, row `y`.
#[derive(Clone, Copy, Debug, PartialEq, Eq, Hash, Structural)]
pub struct GridCoords {
    pub x: i32,
    pub y: i32,
}

/// Why the collision geometry of a level could not be built.
#[derive(Clone, Copy, Debug, PartialEq, Eq, Structural)]
pub enum ColliderError {
    /// The level that owns the marked cells is not in the loaded level data.
    MissingLevelData,
    /// The level's width or height is not positive.
    InvalidDimensions { columns: i32, rows: i32 },
    /// A marked cell lies outside the level's grid.
    CellOutOfBounds(GridCoords),
}

/// `c` lies within a grid of `columns` by `rows` cells.
pub open spec fn in_bounds(c: GridCoords, columns: int, rows: int) -> bool {
    0 <= c.x < columns && 0 <= c.y < rows
}

/// `c` is the cell `(x, y)`.
pub open spec fn is_cell(c: GridCoords, x: int, y: int) -> bool {
    c.x == x && c.y == y
}

/// The cell `(x, y)` occurs in the list `cells`.
pub open spec fn listed(cells: Seq<GridCoords>, x: int, y: int) -> bool {
    exists|i: int| 0 <= i < cells.len() && #[trigger] is_cell(cells[i], x, y)
}

/// `cells[i]` is the first cell of the list that lies outside the grid.
pub open spec fn first_out_of_bounds(cells: Seq<GridCoords>, columns: int, rows: int, i: int) -> bool {
    &&& 0 <= i < cells.len()
    &&& !in_bounds(cells[i], columns, rows)
    &&& forall|j: int| 0 <= j < i ==> in_bounds(#[trigger] cells[j], columns, rows)
}

/// The marking of a grid of `columns` by `rows` cells in which exactly the
/// listed cells are marked, row by row.
pub open spec fn marks_of(cells: Seq<GridCoords>, columns: int, rows: int) -> Seq<Seq<bool>> {
    Seq::new(rows as nat, |y: int| Seq::new(columns as nat, |x: int| listed(cells, x, y)))
}

/// The marked cells of a level of `columns` by `rows` cells, stored row by row.
pub struct MarkedGrid {
    columns: i32,
    rows: i32,
    cells: Vec<bool>,
}

impl View for MarkedGrid {
    type V = Seq<Seq<bool>>;

    /// The grid as its rows, each one entry per column: `true` where marked.
    open spec fn view(&self) -> Seq<Seq<bool>> {
        Seq::new(self.height() as nat, |y: int| self.row_view(y))
    }
}

impl MarkedGrid {
    pub closed spec fn width(&self) -> int {
        self.columns as int
    }

    pub closed spec fn height(&self) -> int {
        self.rows as int
    }

    /// The grid has positive dimensions and one entry per cell.
    pub closed spec fn wf(&self) -> bool {
        &&& self.columns > 0
        &&& self.rows > 0
        &&& self.cells@.len() == self.columns as int * self.rows as int
    }

    /// Whether the cell `(x, y)` is marked; cells off the grid are not.
    pub closed spec fn is_marked(&self, x: int, y: int) -> bool {
        &&& 0 <= x < self.columns
        &&& 0 <= y < self.rows
        &&& self.cells@[y * self.columns + x]
    }

    /// Row `y` of the grid, one entry per column.
    pub open spec fn row_view(&self, y: int) -> Seq<bool> {
        Seq::new(self.width() as nat, |x: int| self.is_marked(x, y))
    }

    /// Row `y` of the view is the grid's row `y`; it has `width` entries.
    pub proof fn lemma_view(&self)
        requires
            self.wf(),
        ensures
            self@.len() == self.height(),
            self.height() > 0,
            self.width() > 0,
            forall|y: int| 0 <= y < self.height() ==> #[trigger] self@[y] == self.row_view(y) && self@[y].len() == self.width(),
    {
    }

    pub fn columns(&self) -> (r: i32)
        requires
            self.wf(),
        ensures
            r == self.width(),
            r > 0,
    {
        self.columns
    }

    pub fn rows(&self) -> (r: i32)
        requires
            self.wf(),
        ensures
            r == self.height(),
            r > 0,
    {
        self.rows
    }

    /// Copies out row `y`, one entry per column.
    pub fn row(&self, y: i32) -> (r: Vec<bool>)
        requires
            self.wf(),
            0 <= y < self.height(),
        ensures
            r@ == self.row_view(y as int),
    {
        let columns = self.columns as usize;
        let total = self.cells.len();
        proof {
            lemma_cell_index(0, y as int, self.columns as int, self.rows as int);
            lemma_cell_index(self.columns - 1, y as int, self.columns as int, self.rows as int);
            assert(y * self.columns + self.columns - 1 < total);
        }
        let base: usize = (y as usize) * columns;
        let mut r: Vec<bool> = Vec::new();
        let mut x: usize = 0;
        while x < columns
            invariant
                self.wf(),
                0 <= y < self.rows,
                columns == self.columns,
                base == y * self.columns,
                total == self.cells@.len(),
                base + columns <= total,
                x <= columns,
                r@.len() == x,
                forall|i: int| 0 <= i < x ==> #[trigger] r@[i] == self.is_marked(i, y as int),
            decreases columns - x,
        {
            r.push(self.cells[base + x]);
            x = x + 1;
        }
        assert(r@ =~= self.row_view(y as int));
        r
    }

    /// Builds the grid of a level from the list of its marked cells.
    ///
    /// Fails with `InvalidDimensions` when a dimension is not positive, and
    /// otherwise with `CellOutOfBounds` naming the first listed cell that lies
    /// outside the grid.
    pub fn from_cells(columns: i32, rows: i32, cells: &Vec<GridCoords>) -> (r: Result<MarkedGrid, ColliderError>)
        requires
            columns as int * rows as int <= usize::MAX,
        ensures
            (columns <= 0 || rows <= 0) ==> r == Err::<MarkedGrid, ColliderError>(
                ColliderError::InvalidDimensions { columns, rows },
            ),
            (columns > 0 && rows > 0) ==> match r {
                Ok(g) => {
                    &&& g.wf()
                    &&& g.width() == columns
                    &&& g.height() == rows
                    &&& forall|c: GridCoords| #[trigger] cells@.contains(c) ==> in_bounds(c, columns as int, rows as int)
                    &&& forall|x: int, y: int| #[trigger] g.is_marked(x, y) <==> listed(cells@, x, y)
                    &&& g@ == marks_of(cells@, columns as int, rows as int)
                },
                Err(e) => exists|i: int|
                    #[trigger] first_out_of_bounds(cells@, columns as int, rows as int, i)
                        && e == ColliderError::CellOutOfBounds(cells@[i]),
            },
    {
        if columns <= 0 || rows <= 0 {
            return Err(ColliderError::InvalidDimensions { columns, rows });
        }
        let total: usize = (columns as usize) * (rows as usize);
        let mut bits: Vec<bool> = Vec::new();
        let mut n: usize = 0;
        while n < total
            invariant
                n <= total,
                bits@.len() == n,
                forall|i: int| 0 <= i < n ==> !#[trigger] bits@[i],
            decreases total - n,
        {
            bits.push(false);
            n = n + 1;
        }
        let mut i: usize = 0;
        proof {
            assert forall|x: int, y: int| 0 <= x < columns && 0 <= y < rows implies
                (#[trigger] bits@[y * columns + x] <==> listed(cells@.subrange(0, 0), x, y)) by {
                lemma_cell_index(x, y, columns as int, rows as int);
            }
        }
        while i < cells.len()
            invariant
                0 < columns,
                0 < rows,
                total == columns as int * rows as int,
                bits@.len() == total,
                i <= cells@.len(),
                forall|j: int| 0 <= j < i ==> in_bounds(#[trigger] cells@[j], columns as int, rows as int),
                forall|x: int, y: int| 0 <= x < columns && 0 <= y < rows ==>
                    (#[trigger] bits@[y * columns + x] <==> listed(cells@.subrange(0, i as int), x, y)),
            decreases cells@.len() - i,
        {
            let c = cells[i];
            if c.x < 0 || c.x >= columns || c.y < 0 || c.y >= rows {
                assert(first_out_of_bounds(cells@, columns as int, rows as int, i as int));
                return Err(ColliderError::CellOutOfBounds(c));
            }
            proof {
                lemma_cell_index(c.x as int, c.y as int, columns as int, rows as int);
            }
            let idx: usize = (c.y as usize) * (columns as usize) + (c.x as usize);
            let ghost before = bits@;
            bits.set(idx, true);
            proof {
                let old_list = cells@.subrange(0, i as int);
                let new_list = cells@.subrange(0, i + 1);
                assert forall|x: int, y: int| 0 <= x < columns && 0 <= y < rows implies
                    (#[trigger] bits@[y * columns + x] <==> listed(new_list, x, y)) by {
                    lemma_cell_index(x, y, columns as int, rows as int);
                    if y * columns + x == c.y * columns + c.x {
                        lemma_cell_index_injective(x, y, c.x as int, c.y as int, columns as int);
                    }
                    if listed(old_list, x, y) {
                        let k = choose|k: int| 0 <= k < old_list.len() && #[trigger] is_cell(old_list[k], x, y);
                        assert(is_cell(new_list[k], x, y));
                    }
                    if listed(new_list, x, y) {
                        let k = choose|k: int| 0 <= k < new_list.len() && #[trigger] is_cell(new_list[k], x, y);
                        if k < i {
                            assert(old_list[k] == new_list[k]);
                        }
                    }
                    if x == c.x && y == c.y {
                        assert(is_cell(new_list[i as int], x, y));
                    }
                }
            }
            i = i + 1;
        }
        proof {
            assert(cells@.subrange(0, cells@.len() as int) == cells@);
            assert forall|c: GridCoords| #[trigger] cells@.contains(c) implies in_bounds(c, columns as int, rows as int) by {
                let k = choose|k: int| 0 <= k < cells@.len() && cells@[k] == c;
                assert(in_bounds(cells@[k], columns as int, rows as int));
            }
        }
        let g = MarkedGrid { columns, rows, cells: bits };
        proof {
            assert forall|x: int, y: int| #[trigger] g.is_marked(x, y) <==> listed(cells@, x, y) by {
                if listed(cells@, x, y) {
                    let k = choose|k: int| 0 <= k < cells@.len() && #[trigger] is_cell(cells@[k], x, y);
                    assert(in_bounds(cells@[k], columns as int, rows as int));
                }
            }
            let m = marks_of(cells@, columns as int, rows as int);
            assert forall|y: int| 0 <= y < rows implies #[trigger] g@[y] == m[y] by {
                assert(g@[y] =~= m[y]);
            }
            assert(g@ =~= m);
        }
        Ok(g)
    }
}

proof fn lemma_cell_index(x: int, y: int, columns: int, rows: int)
    requires
        0 <= x < columns,
        0 <= y < rows,
    ensures
        0 <= y * columns + x < columns * rows,
{
    assert(0 <= y * columns) by (nonlinear_arith)
        requires 0 <= y, 0 < columns;
    assert(y * columns + x < columns * rows) by (nonlinear_arith)
        requires 0 <= x < columns, 0 <= y < rows;
}

proof fn lemma_cell_index_injective(x1: int, y1: int, x2: int, y2: int, columns: int)
    requires
        0 <= x1 < columns,
        0 <= x2 < columns,
        y1 * columns + x1 == y2 * columns + x2,
    ensures
        x1 == x2 && y1 == y2,
{
    assert(y1 == y2) by (nonlinear_arith)
        requires
            0 <= x1 < columns,
            0 <= x2 < columns,
            y1 * columns + x1 == y2 * columns + x2;
}

} // verus!
