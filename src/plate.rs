//! Rows of cells and the plates (maximal runs of marked cells) they hold.
use vstd::prelude::*;

use crate::grid::MarkedGrid;

verus! {

/// An inclusive range of columns `left..=right` of marked cells in one row.
#[derive(Clone, Copy, Debug, PartialEq, Eq, Hash, Structural)]
pub struct Plate {
    pub left: i32,
    pub right: i32,
}

/// `left..=right` is a maximal run of marked cells of `row`: every cell in it
/// is marked and the cells just outside it are unmarked or off the row.
pub open spec fn is_run(row: Seq<bool>, left: int, right: int) -> bool {
    &&& 0 <= left <= right < row.len()
    &&& forall|x: int| left <= x <= right ==> #[trigger] row[x]
    &&& left == 0 || !row[left - 1]
    &&& right == row.len() - 1 || !row[right + 1]
}

/// Column `x` lies within plate `p`.
pub open spec fn plate_holds(p: Plate, x: int) -> bool {
    p.left <= x <= p.right
}

/// `ps` lists the maximal runs of `row`, from left to right, and nothing else.
pub open spec fn row_plates(row: Seq<bool>, ps: Seq<Plate>) -> bool {
    &&& forall|k: int| 0 <= k < ps.len() ==> #[trigger] is_run(row, ps[k].left as int, ps[k].right as int)
    &&& forall|k: int, j: int| 0 <= k < j < ps.len() ==> #[trigger] ps[k].right < #[trigger] ps[j].left
    &&& forall|x: int| 0 <= x < row.len() && #[trigger] row[x] ==>
            exists|k: int| 0 <= k < ps.len() && #[trigger] plate_holds(ps[k], x)
}

/// A row without marked cells has no plates, and a fully marked row has
/// exactly one plate, spanning the whole row.
pub proof fn lemma_row_extremes(row: Seq<bool>, ps: Seq<Plate>)
    requires
        row_plates(row, ps),
    ensures
        (forall|x: int| 0 <= x < row.len() ==> !#[trigger] row[x]) ==> ps.len() == 0,
        (row.len() > 0 && forall|x: int| 0 <= x < row.len() ==> #[trigger] row[x]) ==>
            ps.len() == 1 && ps[0].left == 0 && ps[0].right == row.len() - 1,
{
    if forall|x: int| 0 <= x < row.len() ==> !#[trigger] row[x] {
        if ps.len() > 0 {
            assert(is_run(row, ps[0].left as int, ps[0].right as int));
            assert(row[ps[0].left as int]);
        }
    }
    if row.len() > 0 && forall|x: int| 0 <= x < row.len() ==> #[trigger] row[x] {
        assert(row[0]);
        let k = choose|k: int| 0 <= k < ps.len() && #[trigger] plate_holds(ps[k], 0);
        assert(is_run(row, ps[k].left as int, ps[k].right as int));
        if ps[k].right < row.len() - 1 {
            assert(row[ps[k].right + 1]);
        }
        assert forall|j: int| 0 <= j < ps.len() implies #[trigger] ps[j] == ps[k] && j == k by {
            assert(is_run(row, ps[j].left as int, ps[j].right as int));
            if j < k {
                assert(ps[j].right < ps[k].left);
            } else if j > k {
                assert(ps[k].right < ps[j].left);
            }
        }
        if ps.len() > 1 {
            assert(ps[ps.len() - 1] == ps[k]);
            assert(ps[0] == ps[k]);
        }
    }
}

/// Collapses one row of cells into its plates, scanning from left to right.
pub fn compact_row(row: &Vec<bool>) -> (ps: Vec<Plate>)
    requires
        row@.len() <= i32::MAX,
    ensures
        row_plates(row@, ps@),
{
    let n = row.len();
    let mut ps: Vec<Plate> = Vec::new();
    let mut start: Option<usize> = None;
    let mut col: usize = 0;
    while col < n
        invariant
            n == row@.len(),
            n <= i32::MAX,
            col <= n,
            forall|k: int| 0 <= k < ps@.len() ==> #[trigger] is_run(row@, ps@[k].left as int, ps@[k].right as int),
            forall|k: int, j: int| 0 <= k < j < ps@.len() ==> #[trigger] ps@[k].right < #[trigger] ps@[j].left,
            forall|k: int| 0 <= k < ps@.len() ==> #[trigger] ps@[k].right < col,
            match start {
                Some(s) => {
                    &&& s < col
                    &&& (s == 0 || !row@[s - 1])
                    &&& forall|x: int| s <= x < col ==> #[trigger] row@[x]
                    &&& forall|k: int| 0 <= k < ps@.len() ==> #[trigger] ps@[k].right + 1 < s
                },
                None => col == 0 || !row@[col - 1],
            },
            forall|x: int| 0 <= x < col && #[trigger] row@[x] ==>
                (exists|k: int| 0 <= k < ps@.len() && #[trigger] plate_holds(ps@[k], x))
                || (match start { Some(s) => s <= x, None => false }),
        decreases n - col,
    {
        let marked = row[col];
        match start {
            Some(s) => {
                if !marked {
                    let p = Plate { left: s as i32, right: (col - 1) as i32 };
                    let ghost old_ps = ps@;
                    ps.push(p);
                    proof {
                        assert forall|x: int| 0 <= x < col + 1 && #[trigger] row@[x] implies
                            exists|k: int| 0 <= k < ps@.len() && #[trigger] plate_holds(ps@[k], x) by {
                            if s <= x {
                                assert(plate_holds(ps@[old_ps.len() as int], x));
                            } else {
                                let k = choose|k: int| 0 <= k < old_ps.len() && #[trigger] plate_holds(old_ps[k], x);
                                assert(plate_holds(ps@[k], x));
                            }
                        }
                    }
                    start = None;
                }
            },
            None => {
                if marked {
                    proof {
                        assert forall|k: int| 0 <= k < ps@.len() implies #[trigger] ps@[k].right + 1 < col by {
                            assert(is_run(row@, ps@[k].left as int, ps@[k].right as int));
                            assert(row@[ps@[k].right as int]);
                        }
                    }
                    start = Some(col);
                }
            },
        }
        col = col + 1;
    }
    match start {
        Some(s) => {
            let p = Plate { left: s as i32, right: (n - 1) as i32 };
            let ghost old_ps = ps@;
            ps.push(p);
            proof {
                assert forall|x: int| 0 <= x < n && #[trigger] row@[x] implies
                    exists|k: int| 0 <= k < ps@.len() && #[trigger] plate_holds(ps@[k], x) by {
                    if s <= x {
                        assert(plate_holds(ps@[old_ps.len() as int], x));
                    } else {
                        let k = choose|k: int| 0 <= k < old_ps.len() && #[trigger] plate_holds(old_ps[k], x);
                        assert(plate_holds(ps@[k], x));
                    }
                }
            }
        },
        None => {},
    }
    ps
}

/// Collapses every row of the grid into its plates; a row without marked
/// cells gives an empty list, so the result has one entry per row.
pub fn compact_rows(grid: &MarkedGrid) -> (rows: Vec<Vec<Plate>>)
    requires
        grid.wf(),
    ensures
        rows@.len() == grid.height(),
        forall|y: int| 0 <= y < rows@.len() ==> row_plates(grid.row_view(y), #[trigger] rows@[y]@),
{
    let height = grid.rows();
    let width = grid.columns();
    let mut rows: Vec<Vec<Plate>> = Vec::new();
    let mut y: i32 = 0;
    while y < height
        invariant
            grid.wf(),
            height == grid.height(),
            width == grid.width(),
            width > 0,
            0 <= y <= height,
            rows@.len() == y,
            forall|z: int| 0 <= z < y ==> row_plates(grid.row_view(z), #[trigger] rows@[z]@),
        decreases height - y,
    {
        let row = grid.row(y);
        assert(row@.len() == width);
        let ps = compact_row(&row);
        rows.push(ps);
        y = y + 1;
    }
    rows
}

} // verus!
