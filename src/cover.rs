//! What every greedy cover of a marking satisfies: it covers exactly the
//! marked cells, and it is the only one.
use vstd::prelude::*;

use crate::collider::{grid_plate, grid_stack, greedy_cover};
use crate::plate::{Plate, is_run};
use crate::rect::{Rect, covers, emitted_before, plate_of};

verus! {

/// Cell `(x, y)` is marked in `m`.
pub open spec fn marked(m: Seq<Seq<bool>>, x: int, y: int) -> bool {
    0 <= y < m.len() && 0 <= x < m[y].len() && m[y][x]
}

/// Every row index and column index of `m` fits the coordinates of a plate
/// and a rectangle.
pub open spec fn fits_i32(m: Seq<Seq<bool>>) -> bool {
    &&& m.len() <= i32::MAX
    &&& forall|y: int| 0 <= y < m.len() ==> #[trigger] m[y].len() <= i32::MAX
}

/// Rectangle `r` contains the cell `(x, y)`.
pub open spec fn rect_holds(r: Rect, x: int, y: int) -> bool {
    r.left <= x <= r.right && r.bottom <= y <= r.top
}

/// The first column of the run of marked cells that reaches column `x`.
pub open spec fn run_start(row: Seq<bool>, x: int) -> int
    decreases x,
{
    if x > 0 && x - 1 < row.len() && row[x - 1] {
        run_start(row, x - 1)
    } else {
        x
    }
}

/// The last column of the run of marked cells that reaches column `x`.
pub open spec fn run_end(row: Seq<bool>, x: int) -> int
    decreases row.len() - x,
{
    if 0 <= x && x + 1 < row.len() && row[x + 1] {
        run_end(row, x + 1)
    } else {
        x
    }
}

proof fn lemma_run_start(row: Seq<bool>, x: int)
    requires
        0 <= x < row.len(),
        row[x],
    ensures
        0 <= run_start(row, x) <= x,
        run_start(row, x) == 0 || !row[run_start(row, x) - 1],
        forall|z: int| run_start(row, x) <= z <= x ==> #[trigger] row[z],
    decreases x,
{
    if x > 0 && row[x - 1] {
        lemma_run_start(row, x - 1);
    }
}

proof fn lemma_run_end(row: Seq<bool>, x: int)
    requires
        0 <= x < row.len(),
        row[x],
    ensures
        x <= run_end(row, x) < row.len(),
        run_end(row, x) == row.len() - 1 || !row[run_end(row, x) + 1],
        forall|z: int| x <= z <= run_end(row, x) ==> #[trigger] row[z],
    decreases row.len() - x,
{
    if x + 1 < row.len() && row[x + 1] {
        lemma_run_end(row, x + 1);
    }
}

/// Every marked cell lies in a maximal run of its row.
pub proof fn lemma_run_around(row: Seq<bool>, x: int)
    requires
        0 <= x < row.len(),
        row[x],
    ensures
        is_run(row, run_start(row, x), run_end(row, x)),
        run_start(row, x) <= x <= run_end(row, x),
{
    lemma_run_start(row, x);
    lemma_run_end(row, x);
    let l = run_start(row, x);
    let r = run_end(row, x);
    assert forall|z: int| l <= z <= r implies #[trigger] row[z] by {
        if z <= x {
            assert(row[z]);
        } else {
            assert(row[z]);
        }
    }
}

/// The rectangles of a greedy cover together hold exactly the marked cells:
/// none is missing and none is added.
pub proof fn lemma_cover_exact(m: Seq<Seq<bool>>, rs: Seq<Rect>)
    requires
        fits_i32(m),
        greedy_cover(m, rs),
    ensures
        forall|x: int, y: int| #[trigger] marked(m, x, y) <==> exists|i: int| 0 <= i < rs.len() && #[trigger] rect_holds(rs[i], x, y),
{
    assert forall|x: int, y: int| #[trigger] marked(m, x, y) <==> exists|i: int| 0 <= i < rs.len() && #[trigger] rect_holds(rs[i], x, y) by {
        if marked(m, x, y) {
            let row = m[y];
            lemma_run_around(row, x);
            assert(row.len() <= i32::MAX);
            let p = Plate { left: run_start(row, x) as i32, right: run_end(row, x) as i32 };
            assert(grid_plate(m, y, p));
            let i = choose|i: int| 0 <= i < rs.len() && #[trigger] covers(rs[i], y, p);
            assert(rect_holds(rs[i], x, y));
        }
        if exists|i: int| 0 <= i < rs.len() && #[trigger] rect_holds(rs[i], x, y) {
            let i = choose|i: int| 0 <= i < rs.len() && #[trigger] rect_holds(rs[i], x, y);
            assert(grid_stack(m, rs[i]));
            assert(grid_plate(m, y, plate_of(rs[i])));
        }
    }
}

/// A marking without marked cells has an empty greedy cover.
pub proof fn lemma_cover_of_blank(m: Seq<Seq<bool>>, rs: Seq<Rect>)
    requires
        greedy_cover(m, rs),
        forall|x: int, y: int| !#[trigger] marked(m, x, y),
    ensures
        rs.len() == 0,
{
    if rs.len() > 0 {
        let r = rs[0];
        assert(grid_stack(m, r));
        assert(grid_plate(m, r.bottom as int, plate_of(r)));
        assert(marked(m, r.left as int, r.bottom as int));
    }
}

/// Two maximal stacks of one plate that share a row are the same rectangle.
proof fn lemma_stack_unique(m: Seq<Seq<bool>>, a: Rect, b: Rect, y: int)
    requires
        grid_stack(m, a),
        grid_stack(m, b),
        a.left == b.left,
        a.right == b.right,
        a.bottom <= y <= a.top,
        b.bottom <= y <= b.top,
    ensures
        a == b,
{
    assert(plate_of(a) == plate_of(b));
    if a.top < b.top {
        assert(grid_plate(m, a.top + 1, plate_of(b)));
    }
    if b.top < a.top {
        assert(grid_plate(m, b.top + 1, plate_of(a)));
    }
    if a.bottom < b.bottom {
        assert(grid_plate(m, b.bottom - 1, plate_of(a)));
    }
    if b.bottom < a.bottom {
        assert(grid_plate(m, a.bottom - 1, plate_of(b)));
    }
}

/// Each rectangle of a greedy cover is in every other greedy cover.
proof fn lemma_cover_included(m: Seq<Seq<bool>>, a: Seq<Rect>, b: Seq<Rect>)
    requires
        greedy_cover(m, a),
        greedy_cover(m, b),
    ensures
        forall|i: int| 0 <= i < a.len() ==> b.contains(#[trigger] a[i]),
{
    assert forall|i: int| 0 <= i < a.len() implies b.contains(#[trigger] a[i]) by {
        let r = a[i];
        assert(grid_stack(m, r));
        assert(grid_plate(m, r.top as int, plate_of(r)));
        let k = choose|k: int| 0 <= k < b.len() && #[trigger] covers(b[k], r.top as int, plate_of(r));
        assert(grid_stack(m, b[k]));
        lemma_stack_unique(m, r, b[k], r.top as int);
        assert(b[k] == r);
    }
}

/// Two sequences in strict emission order with the same members are equal.
proof fn lemma_ordered_same_members(a: Seq<Rect>, b: Seq<Rect>)
    requires
        forall|i: int, k: int| 0 <= i < k < a.len() ==> emitted_before(#[trigger] a[i], #[trigger] a[k]),
        forall|i: int, k: int| 0 <= i < k < b.len() ==> emitted_before(#[trigger] b[i], #[trigger] b[k]),
        forall|i: int| 0 <= i < a.len() ==> b.contains(#[trigger] a[i]),
        forall|i: int| 0 <= i < b.len() ==> a.contains(#[trigger] b[i]),
    ensures
        a == b,
    decreases a.len(),
{
    if a.len() == 0 {
        if b.len() > 0 {
            assert(a.contains(b[0]));
        }
        assert(a =~= b);
    } else {
        assert(b.contains(a[0]));
        let k = choose|k: int| 0 <= k < b.len() && b[k] == a[0];
        if k > 0 {
            assert(a.contains(b[0]));
            let m = choose|m: int| 0 <= m < a.len() && a[m] == b[0];
            assert(emitted_before(b[0], b[k]));
            if m > 0 {
                assert(emitted_before(a[0], a[m]));
            }
        }
        assert(b[0] == a[0]);
        let a1 = a.drop_first();
        let b1 = b.drop_first();
        assert forall|i: int| 0 <= i < a1.len() implies b1.contains(#[trigger] a1[i]) by {
            assert(a1[i] == a[i + 1]);
            assert(emitted_before(a[0], a[i + 1]));
            assert(b.contains(a[i + 1]));
            let j = choose|j: int| 0 <= j < b.len() && b[j] == a[i + 1];
            assert(j != 0);
            assert(b1[j - 1] == b[j]);
        }
        assert forall|i: int| 0 <= i < b1.len() implies a1.contains(#[trigger] b1[i]) by {
            assert(b1[i] == b[i + 1]);
            assert(emitted_before(b[0], b[i + 1]));
            assert(a.contains(b[i + 1]));
            let j = choose|j: int| 0 <= j < a.len() && a[j] == b[i + 1];
            assert(j != 0);
            assert(a1[j - 1] == a[j]);
        }
        assert forall|i: int, k: int| 0 <= i < k < a1.len() implies emitted_before(#[trigger] a1[i], #[trigger] a1[k]) by {
            assert(emitted_before(a[i + 1], a[k + 1]));
        }
        assert forall|i: int, k: int| 0 <= i < k < b1.len() implies emitted_before(#[trigger] b1[i], #[trigger] b1[k]) by {
            assert(emitted_before(b[i + 1], b[k + 1]));
        }
        lemma_ordered_same_members(a1, b1);
        assert(a.len() == b.len());
        assert forall|i: int| 0 <= i < a.len() implies a[i] == b[i] by {
            if i > 0 {
                assert(a[i] == a1[i - 1]);
                assert(b[i] == b1[i - 1]);
            }
        }
        assert(a =~= b);
    }
}

/// A marking has only one greedy cover: the same marking always gives the
/// same rectangles in the same order.
pub proof fn lemma_cover_unique(m: Seq<Seq<bool>>, a: Seq<Rect>, b: Seq<Rect>)
    requires
        greedy_cover(m, a),
        greedy_cover(m, b),
    ensures
        a == b,
{
    lemma_cover_included(m, a, b);
    lemma_cover_included(m, b, a);
    lemma_ordered_same_members(a, b);
}

} // verus!
