//! The whole pass over one level: marked cells to rectangles to collision
//! bodies.
use vstd::prelude::*;

use crate::body::{ColliderBody, body_of, collider_bodies, rect_valid};
use crate::cover::{lemma_cover_of_blank, lemma_cover_unique, marked};
use crate::grid::{ColliderError, GridCoords, MarkedGrid, first_out_of_bounds, in_bounds, listed, marks_of};
use crate::plate::{Plate, compact_rows, is_run, plate_holds, row_plates};
use crate::rect::{Rect, assemble, assembled, covered, emitted_before, occurs, plate_of, plates_view, rows_ordered};

verus! {

/// `p` is a plate of row `y` of the marking `m`: a maximal run of marked
/// cells.
pub open spec fn grid_plate(m: Seq<Seq<bool>>, y: int, p: Plate) -> bool {
    0 <= y < m.len() && is_run(m[y], p.left as int, p.right as int)
}

/// `r` is a maximal stack of one plate over consecutive rows of the grid.
pub open spec fn grid_stack(g: Seq<Seq<bool>>, r: Rect) -> bool {
    &&& r.bottom <= r.top
    &&& forall|y: int| r.bottom <= y <= r.top ==> #[trigger] grid_plate(g, y, plate_of(r))
    &&& !grid_plate(g, r.bottom - 1, plate_of(r))
    &&& !grid_plate(g, r.top + 1, plate_of(r))
}

/// `rs` is the greedy rectangle cover of the grid: the maximal stacks of
/// identical plates over consecutive rows, every plate inside one of them,
/// ordered by top row and then by left column.
pub open spec fn greedy_cover(g: Seq<Seq<bool>>, rs: Seq<Rect>) -> bool {
    &&& forall|i: int| 0 <= i < rs.len() ==> #[trigger] grid_stack(g, rs[i])
    &&& forall|y: int, p: Plate| #[trigger] grid_plate(g, y, p) ==> covered(rs, y, p)
    &&& forall|i: int, k: int| 0 <= i < k < rs.len() ==> emitted_before(#[trigger] rs[i], #[trigger] rs[k])
}

/// The greedy rectangle cover of the marking `m`; there is exactly one.
pub open spec fn cover_of(m: Seq<Seq<bool>>) -> Seq<Rect> {
    choose|rs: Seq<Rect>| greedy_cover(m, rs)
}

/// `bs` are the collision bodies of the rectangles `rs`, one each, in order.
pub open spec fn bodies_of(bs: Seq<ColliderBody>, rs: Seq<Rect>, grid_size: int) -> bool {
    &&& bs.len() == rs.len()
    &&& forall|i: int| 0 <= i < rs.len() ==> body_of(#[trigger] bs[i], rs[i], grid_size)
}

/// The size of a level's grid, in cells, and the edge of its tiles, in world
/// units.
#[derive(Clone, Copy, Debug, PartialEq, Eq, Hash, Structural)]
pub struct LevelLayout {
    pub columns: i32,
    pub rows: i32,
    pub grid_size: i32,
}

/// Two maximal runs of one row that share a column are the same run.
pub proof fn lemma_run_unique(row: Seq<bool>, l1: int, r1: int, l2: int, r2: int, x: int)
    requires
        is_run(row, l1, r1),
        is_run(row, l2, r2),
        l1 <= x <= r1,
        l2 <= x <= r2,
    ensures
        l1 == l2 && r1 == r2,
{
    if l1 < l2 {
        assert(row[l2 - 1]);
    }
    if l2 < l1 {
        assert(row[l1 - 1]);
    }
    if r1 < r2 {
        assert(row[r1 + 1]);
    }
    if r2 < r1 {
        assert(row[r2 + 1]);
    }
}

/// The plate lists produced row by row are exactly the plates of the grid,
/// each row ordered by left column.
proof fn lemma_rows_match_grid(g: Seq<Seq<bool>>, pv: Seq<Seq<Plate>>)
    requires
        pv.len() == g.len(),
        forall|y: int| 0 <= y < pv.len() ==> row_plates(g[y], #[trigger] pv[y]),
    ensures
        rows_ordered(pv),
        forall|y: int, p: Plate| #[trigger] occurs(pv, y, p) <==> grid_plate(g, y, p),
{
    assert forall|y: int, a: int, b: int| 0 <= y < pv.len() && 0 <= a < b < pv[y].len() implies
        #[trigger] pv[y][a].left < #[trigger] pv[y][b].left by {
        assert(row_plates(g[y], pv[y]));
        assert(is_run(g[y], pv[y][a].left as int, pv[y][a].right as int));
    }
    assert forall|y: int, p: Plate| #[trigger] occurs(pv, y, p) <==> grid_plate(g, y, p) by {
        if occurs(pv, y, p) {
            let j = choose|j: int| 0 <= j < pv[y].len() && pv[y][j] == p;
            assert(row_plates(g[y], pv[y]));
            assert(is_run(g[y], pv[y][j].left as int, pv[y][j].right as int));
        }
        if grid_plate(g, y, p) {
            let row = g[y];
            let ps = pv[y];
            assert(row_plates(row, ps));
            let x = p.left as int;
            assert(row[x]);
            let k = choose|k: int| 0 <= k < ps.len() && #[trigger] plate_holds(ps[k], x);
            assert(is_run(row, ps[k].left as int, ps[k].right as int));
            lemma_run_unique(row, ps[k].left as int, ps[k].right as int, p.left as int, p.right as int, x);
            assert(ps[k] == p);
        }
    }
}

/// Merges the marked cells of the grid into rectangles: the plates of each
/// row, then the stacks of identical plates over consecutive rows.
pub fn ground_rects(grid: &MarkedGrid) -> (rs: Vec<Rect>)
    requires
        grid.wf(),
    ensures
        greedy_cover(grid@, rs@),
        rs@ == cover_of(grid@),
{
    let height = grid.rows();
    let rows = compact_rows(grid);
    assert(rows@.len() == height);
    let ghost pv = plates_view(rows@);
    proof {
        grid.lemma_view();
        assert forall|y: int| 0 <= y < pv.len() implies row_plates(grid@[y], #[trigger] pv[y]) by {
            assert(pv[y] == rows@[y]@);
        }
        lemma_rows_match_grid(grid@, pv);
    }
    let rs = assemble(&rows);
    proof {
        assert(assembled(pv, rs@));
        assert forall|i: int| 0 <= i < rs@.len() implies #[trigger] grid_stack(grid@, rs@[i]) by {
            let r = rs@[i];
            assert(crate::rect::is_stack(pv, r));
            assert forall|y: int| r.bottom <= y <= r.top implies #[trigger] grid_plate(grid@, y, plate_of(r)) by {
                assert(occurs(pv, y, plate_of(r)));
            }
            assert(!occurs(pv, r.bottom - 1, plate_of(r)));
            assert(!occurs(pv, r.top + 1, plate_of(r)));
        }
        assert forall|y: int, p: Plate| #[trigger] grid_plate(grid@, y, p) implies covered(rs@, y, p) by {
            assert(occurs(pv, y, p));
            let j = choose|j: int| 0 <= j < pv[y].len() && pv[y][j] == p;
            assert(covered(rs@, y, pv[y][j]));
        }
        lemma_cover_unique(grid@, rs@, cover_of(grid@));
    }
    rs
}

/// Builds the collision bodies of one level from the list of its marked
/// cells, relative to the level's origin.
///
/// Fails with `MissingLevelData` when the level's layout is not known, with
/// `InvalidDimensions` when its width or height is not positive, and with
/// `CellOutOfBounds` naming the first listed cell outside its grid.
pub fn level_colliders(layout: Option<LevelLayout>, cells: &Vec<GridCoords>) -> (r: Result<Vec<ColliderBody>, ColliderError>)
    requires
        layout matches Some(l) ==> l.columns as int * l.rows as int <= usize::MAX,
    ensures
        match layout {
            None => r == Err::<Vec<ColliderBody>, ColliderError>(ColliderError::MissingLevelData),
            Some(l) => if l.columns <= 0 || l.rows <= 0 {
                r == Err::<Vec<ColliderBody>, ColliderError>(
                    ColliderError::InvalidDimensions { columns: l.columns, rows: l.rows },
                )
            } else if exists|i: int| 0 <= i < cells@.len() && !in_bounds(#[trigger] cells@[i], l.columns as int, l.rows as int) {
                exists|i: int|
                    #[trigger] first_out_of_bounds(cells@, l.columns as int, l.rows as int, i)
                        && r == Err::<Vec<ColliderBody>, ColliderError>(ColliderError::CellOutOfBounds(cells@[i]))
            } else {
                &&& r is Ok
                &&& bodies_of(r->Ok_0@, cover_of(marks_of(cells@, l.columns as int, l.rows as int)), l.grid_size as int)
                &&& cells@.len() == 0 ==> r->Ok_0@.len() == 0
            },
        },
{
    let l = match layout {
        None => {
            return Err(ColliderError::MissingLevelData);
        },
        Some(l) => l,
    };
    let grid = match MarkedGrid::from_cells(l.columns, l.rows, cells) {
        Ok(g) => g,
        Err(e) => {
            proof {
                if !(l.columns <= 0 || l.rows <= 0) {
                    let i = choose|i: int| #[trigger] first_out_of_bounds(cells@, l.columns as int, l.rows as int, i)
                        && e == ColliderError::CellOutOfBounds(cells@[i]);
                    assert(!in_bounds(cells@[i], l.columns as int, l.rows as int));
                }
            }
            return Err(e);
        },
    };
    let rs = ground_rects(&grid);
    proof {
        let m = grid@;
        grid.lemma_view();
        assert forall|i: int| 0 <= i < rs@.len() implies rect_valid(#[trigger] rs@[i]) by {
            let q = rs@[i];
            assert(grid_stack(m, q));
            assert(grid_plate(m, q.bottom as int, plate_of(q)));
        }
        if cells@.len() == 0 {
            assert forall|x: int, y: int| !#[trigger] marked(m, x, y) by {
                if marked(m, x, y) {
                    assert(grid.is_marked(x, y));
                }
            }
            lemma_cover_of_blank(m, rs@);
        }
    }
    let bs = collider_bodies(&rs, l.grid_size);
    proof {
        assert(grid@ == marks_of(cells@, l.columns as int, l.rows as int));
        assert(bodies_of(bs@, cover_of(grid@), l.grid_size as int));
        assert forall|i: int| 0 <= i < cells@.len() implies in_bounds(#[trigger] cells@[i], l.columns as int, l.rows as int) by {
            assert(cells@.contains(cells@[i]));
        }
    }
    Ok(bs)
}

} // verus!
