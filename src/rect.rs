//! Merging the plates of consecutive rows into rectangles.
use vstd::prelude::*;

use crate::plate::Plate;

verus! {

/// An inclusive block of cells: columns `left..=right`, rows `bottom..=top`.
#[derive(Clone, Copy, Debug, PartialEq, Eq, Hash, Structural)]
pub struct Rect {
    pub left: i32,
    pub right: i32,
    pub top: i32,
    pub bottom: i32,
}

/// The column range of a rectangle, as a plate.
pub open spec fn plate_of(r: Rect) -> Plate {
    Plate { left: r.left, right: r.right }
}

/// The plate lists of a sequence of rows, as values.
pub open spec fn plates_view(rows: Seq<Vec<Plate>>) -> Seq<Seq<Plate>> {
    rows.map_values(|v: Vec<Plate>| v@)
}

/// Plate `p` occurs in row `y`.
pub open spec fn occurs(rows: Seq<Seq<Plate>>, y: int, p: Plate) -> bool {
    0 <= y < rows.len() && rows[y].contains(p)
}

/// Each row lists its plates by strictly increasing left column.
pub open spec fn rows_ordered(rows: Seq<Seq<Plate>>) -> bool {
    forall|y: int, a: int, b: int|
        0 <= y < rows.len() && 0 <= a < b < rows[y].len() ==> #[trigger] rows[y][a].left < #[trigger] rows[y][b].left
}

/// `r` is a maximal stack: its plate occurs in every row from `bottom` to
/// `top`, and neither in the row below nor in the row above.
pub open spec fn is_stack(rows: Seq<Seq<Plate>>, r: Rect) -> bool {
    &&& r.bottom <= r.top
    &&& forall|y: int| r.bottom <= y <= r.top ==> #[trigger] occurs(rows, y, plate_of(r))
    &&& !occurs(rows, r.bottom - 1, plate_of(r))
    &&& !occurs(rows, r.top + 1, plate_of(r))
}

/// `r` has the column range of `p` and spans row `y`.
pub open spec fn covers(r: Rect, y: int, p: Plate) -> bool {
    &&& r.left == p.left
    &&& r.right == p.right
    &&& r.bottom <= y <= r.top
}

/// Some rectangle of `rs` covers plate `p` of row `y`.
pub open spec fn covered(rs: Seq<Rect>, y: int, p: Plate) -> bool {
    exists|i: int| 0 <= i < rs.len() && #[trigger] covers(rs[i], y, p)
}

/// `a` is emitted before `b`: by top row, then by left column.
pub open spec fn emitted_before(a: Rect, b: Rect) -> bool {
    a.top < b.top || (a.top == b.top && a.left < b.left)
}

/// `rs` is the greedy merge of the plate rows: exactly the maximal stacks,
/// each plate of each row inside one of them, ordered by top row and then
/// by left column.
pub open spec fn assembled(rows: Seq<Seq<Plate>>, rs: Seq<Rect>) -> bool {
    &&& forall|i: int| 0 <= i < rs.len() ==> #[trigger] is_stack(rows, rs[i])
    &&& forall|y: int, j: int| 0 <= y < rows.len() && 0 <= j < rows[y].len() ==> covered(rs, y, #[trigger] rows[y][j])
    &&& forall|i: int, k: int| 0 <= i < k < rs.len() ==> emitted_before(#[trigger] rs[i], #[trigger] rs[k])
}

/// The position of plate `p` in `ps`, if it is there.
fn find_plate(ps: &Vec<Plate>, p: Plate) -> (r: Option<usize>)
    ensures
        match r {
            Some(k) => k < ps@.len() && ps@[k as int] == p,
            None => !ps@.contains(p),
        },
{
    let mut k: usize = 0;
    while k < ps.len()
        invariant
            k <= ps@.len(),
            forall|i: int| 0 <= i < k ==> #[trigger] ps@[i] != p,
        decreases ps@.len() - k,
    {
        if ps[k].left == p.left && ps[k].right == p.right {
            return Some(k);
        }
        k = k + 1;
    }
    None
}

/// The plates of the row before row `y`; the row before the first one and
/// the extra row after the last one hold none.
pub open spec fn before_row(rows: Seq<Seq<Plate>>, y: int) -> Seq<Plate> {
    if 1 <= y <= rows.len() {
        rows[y - 1]
    } else {
        Seq::empty()
    }
}

/// `rs` are the rectangles still open after row `y - 1`: one per plate of
/// `plates`, in the same order, each spanning rows `bottom..=y - 1` and
/// started in the first row of its run.
pub open spec fn open_rects(rows: Seq<Seq<Plate>>, plates: Seq<Plate>, rs: Seq<Rect>, y: int) -> bool {
    &&& rs.len() == plates.len()
    &&& forall|k: int| 0 <= k < rs.len() ==> {
        let r = #[trigger] rs[k];
        &&& plate_of(r) == plates[k]
        &&& r.top == y - 1
        &&& r.bottom <= r.top
        &&& forall|z: int| r.bottom <= z <= r.top ==> #[trigger] occurs(rows, z, plate_of(r))
        &&& !occurs(rows, r.bottom - 1, plate_of(r))
    }
}

/// Every rectangle of `rs` is a maximal stack that ends before row `y - 1`
/// (or at it, when `at` holds), and they come in emission order.
pub open spec fn finished_rects(rows: Seq<Seq<Plate>>, rs: Seq<Rect>, y: int, at: bool) -> bool {
    &&& forall|i: int| 0 <= i < rs.len() ==> #[trigger] is_stack(rows, rs[i])
    &&& forall|i: int| 0 <= i < rs.len() ==> if at { #[trigger] rs[i].top <= y - 1 } else { rs[i].top < y - 1 }
    &&& forall|i: int, k: int| 0 <= i < k < rs.len() ==> emitted_before(#[trigger] rs[i], #[trigger] rs[k])
}

/// Appends to `out`, in order, the open rectangles whose plate does not
/// occur in row `y`.
fn finish_row(
    Ghost(pv): Ghost<Seq<Seq<Plate>>>,
    y: usize,
    prev: &Vec<Plate>,
    open: &Vec<Rect>,
    cur: &Vec<Plate>,
    out: &mut Vec<Rect>,
)
    requires
        rows_ordered(pv),
        y <= pv.len(),
        prev@ == before_row(pv, y as int),
        cur@ == before_row(pv, y + 1),
        open_rects(pv, prev@, open@, y as int),
        finished_rects(pv, old(out)@, y as int, false),
    ensures
        final(out)@.len() >= old(out)@.len(),
        forall|i: int| 0 <= i < old(out)@.len() ==> final(out)@[i] == #[trigger] old(out)@[i],
        finished_rects(pv, final(out)@, y as int, true),
        forall|k: int| 0 <= k < prev@.len() && !cur@.contains(#[trigger] prev@[k]) ==> final(out)@.contains(open@[k]),
{
    let ghost out0 = out@;
    let mut k: usize = 0;
    proof {
        assert forall|i: int, k2: int| 0 <= i < out@.len() && 0 <= k2 < prev@.len() implies
            #[trigger] out@[i].top < y - 1 || out@[i].left < #[trigger] prev@[k2].left by {
            assert(out@[i].top < y - 1);
        }
    }
    while k < prev.len()
        invariant
            rows_ordered(pv),
            y <= pv.len(),
            prev@ == before_row(pv, y as int),
            cur@ == before_row(pv, y + 1),
            open_rects(pv, prev@, open@, y as int),
            k <= prev@.len(),
            out0.len() <= out@.len(),
            forall|i: int| 0 <= i < out0.len() ==> out@[i] == #[trigger] out0[i],
            finished_rects(pv, out@, y as int, true),
            forall|i: int, k2: int| 0 <= i < out@.len() && k <= k2 < prev@.len() ==>
                #[trigger] out@[i].top < y - 1 || out@[i].left < #[trigger] prev@[k2].left,
            forall|k2: int| 0 <= k2 < k && !cur@.contains(#[trigger] prev@[k2]) ==> out@.contains(open@[k2]),
        decreases prev@.len() - k,
    {
        let p = prev[k];
        let ghost out_k = out@;
        proof {
            assert(1 <= y <= pv.len());
            assert(prev@ == pv[y - 1]);
        }
        if find_plate(cur, p).is_none() {
            let r = open[k];
            proof {
                assert(r.top == y - 1 && r.left == prev@[k as int].left);
                assert(!occurs(pv, r.top + 1, plate_of(r)));
                assert(is_stack(pv, r));
                assert forall|k2: int| k < k2 < prev@.len() implies r.left < #[trigger] prev@[k2].left by {
                    assert(pv[y - 1][k as int].left < pv[y - 1][k2].left);
                }
            }
            out.push(r);
            proof {
                assert(out@[out@.len() - 1] == r);
                assert forall|i: int, i2: int| 0 <= i < i2 < out@.len() implies
                    emitted_before(#[trigger] out@[i], #[trigger] out@[i2]) by {
                    assert(out@[i] == out_k[i]);
                    if i2 == out@.len() - 1 {
                        assert(out_k[i].top < y - 1 || out_k[i].left < prev@[k as int].left);
                        assert(out_k[i].top <= y - 1);
                    } else {
                        assert(out@[i2] == out_k[i2]);
                    }
                }
                assert forall|i: int| 0 <= i < out@.len() implies #[trigger] is_stack(pv, out@[i]) by {
                    if i < out_k.len() {
                        assert(out@[i] == out_k[i]);
                    }
                }
                assert forall|i: int| 0 <= i < out@.len() implies #[trigger] out@[i].top <= y - 1 by {
                    if i < out_k.len() {
                        assert(out@[i] == out_k[i]);
                    }
                }
            }
        }
        proof {
            assert forall|i: int, k2: int| 0 <= i < out@.len() && k + 1 <= k2 < prev@.len() implies
                #[trigger] out@[i].top < y - 1 || out@[i].left < #[trigger] prev@[k2].left by {
                if i < out_k.len() {
                    assert(out@[i] == out_k[i]);
                }
            }
            assert forall|k2: int| 0 <= k2 < k + 1 && !cur@.contains(#[trigger] prev@[k2]) implies out@.contains(open@[k2]) by {
                if k2 < k {
                    assert(out_k.contains(open@[k2]));
                    let i = choose|i: int| 0 <= i < out_k.len() && out_k[i] == open@[k2];
                    assert(out@[i] == out_k[i]);
                } else {
                    assert(out@[out@.len() - 1] == open@[k2]);
                }
            }
        }
        k = k + 1;
    }
}

/// The rectangles open after row `y`: for each plate of row `y`, the open
/// rectangle of the same plate grown by one row, or else a new one.
fn extend_row(
    Ghost(pv): Ghost<Seq<Seq<Plate>>>,
    y: usize,
    prev: &Vec<Plate>,
    open: &Vec<Rect>,
    cur: &Vec<Plate>,
) -> (next: Vec<Rect>)
    requires
        rows_ordered(pv),
        y <= pv.len(),
        pv.len() <= i32::MAX,
        prev@ == before_row(pv, y as int),
        cur@ == before_row(pv, y + 1),
        open_rects(pv, prev@, open@, y as int),
    ensures
        open_rects(pv, cur@, next@, y + 1),
        forall|j: int, k: int| 0 <= j < next@.len() && 0 <= k < prev@.len() && #[trigger] prev@[k] == cur@[j] ==>
            (#[trigger] next@[j]).bottom == open@[k].bottom,
{
    let mut next: Vec<Rect> = Vec::new();
    let mut j: usize = 0;
    while j < cur.len()
        invariant
            rows_ordered(pv),
            y <= pv.len(),
            pv.len() <= i32::MAX,
            prev@ == before_row(pv, y as int),
            cur@ == before_row(pv, y + 1),
            open_rects(pv, prev@, open@, y as int),
            j <= cur@.len(),
            next@.len() == j,
            open_rects(pv, cur@.subrange(0, j as int), next@, y + 1),
            forall|j2: int, k2: int| 0 <= j2 < j && 0 <= k2 < prev@.len() && #[trigger] prev@[k2] == cur@[j2] ==>
                (#[trigger] next@[j2]).bottom == open@[k2].bottom,
        decreases cur@.len() - j,
    {
        let p = cur[j];
        assert(occurs(pv, y as int, p)) by {
            assert(pv[y as int][j as int] == p);
        }
        let ghost next0 = next@;
        match find_plate(prev, p) {
            Some(k) => {
                let r = open[k];
                let e = Rect { left: r.left, right: r.right, top: r.top + 1, bottom: r.bottom };
                proof {
                    assert(prev@ == pv[y - 1]);
                    assert forall|k2: int| 0 <= k2 < prev@.len() && prev@[k2] == p implies k2 == k by {
                        if k2 < k {
                            assert(pv[y - 1][k2].left < pv[y - 1][k as int].left);
                        } else if k2 > k {
                            assert(pv[y - 1][k as int].left < pv[y - 1][k2].left);
                        }
                    }
                }
                next.push(e);
            },
            None => {
                let e = Rect { left: p.left, right: p.right, top: y as i32, bottom: y as i32 };
                proof {
                    if occurs(pv, y - 1, p) {
                        assert(prev@ == pv[y - 1]);
                        assert(prev@.contains(p));
                    }
                }
                next.push(e);
            },
        }
        proof {
            let sub = cur@.subrange(0, j + 1);
            assert forall|j2: int| 0 <= j2 < next@.len() implies plate_of(#[trigger] next@[j2]) == sub[j2] by {
                if j2 < j {
                    assert(next@[j2] == next0[j2]);
                    assert(cur@.subrange(0, j as int)[j2] == sub[j2]);
                }
            }
            assert forall|j2: int, k2: int| 0 <= j2 < j + 1 && 0 <= k2 < prev@.len() && #[trigger] prev@[k2] == cur@[j2] implies
                (#[trigger] next@[j2]).bottom == open@[k2].bottom by {
                if j2 < j {
                    assert(next@[j2] == next0[j2]);
                }
            }
        }
        j = j + 1;
    }
    assert(cur@.subrange(0, cur@.len() as int) == cur@);
    next
}

/// Merges the plates of consecutive rows into rectangles.
///
/// Rows are taken in increasing order, followed by one extra empty row. A
/// plate that also occurred, with the same bounds, in the row just before
/// extends the rectangle started there by one row; any other plate starts a
/// new rectangle. A rectangle is finished, and appended to the result, in the
/// first row where its plate no longer occurs.
pub fn assemble(rows: &Vec<Vec<Plate>>) -> (rs: Vec<Rect>)
    requires
        rows_ordered(plates_view(rows@)),
        rows@.len() <= i32::MAX,
    ensures
        assembled(plates_view(rows@), rs@),
{
    let ghost pv = plates_view(rows@);
    let n = rows.len();
    let empty: Vec<Plate> = Vec::new();
    let mut out: Vec<Rect> = Vec::new();
    let mut prev: &Vec<Plate> = &empty;
    let mut open: Vec<Rect> = Vec::new();
    let mut y: usize = 0;
    while y <= n
        invariant
            n == rows@.len(),
            n == pv.len(),
            n <= i32::MAX,
            pv == plates_view(rows@),
            rows_ordered(pv),
            empty@.len() == 0,
            y <= n + 1,
            prev@ == before_row(pv, y as int),
            open_rects(pv, prev@, open@, y as int),
            finished_rects(pv, out@, y as int, false),
            forall|z: int, j: int| 0 <= z < y && z < n && 0 <= j < pv[z].len() ==>
                covered(out@, z, #[trigger] pv[z][j]) || covered(open@, z, pv[z][j]),
        decreases n + 1 - y,
    {
        let cur: &Vec<Plate> = if y < n { &rows[y] } else { &empty };
        assert(cur@ == before_row(pv, y + 1));
        let ghost out0 = out@;
        finish_row(Ghost(pv), y, prev, &open, cur, &mut out);
        let next = extend_row(Ghost(pv), y, prev, &open, cur);
        proof {
            assert forall|z: int, j2: int| 0 <= z < y + 1 && z < n && 0 <= j2 < pv[z].len() implies
                covered(out@, z, #[trigger] pv[z][j2]) || covered(next@, z, pv[z][j2]) by {
                let p = pv[z][j2];
                if z == y {
                    assert(covers(next@[j2], z, p));
                } else if covered(out0, z, p) {
                    let i = choose|i: int| 0 <= i < out0.len() && #[trigger] covers(out0[i], z, p);
                    assert(covers(out@[i], z, p));
                } else {
                    let k2 = choose|k2: int| 0 <= k2 < open@.len() && #[trigger] covers(open@[k2], z, p);
                    if cur@.contains(prev@[k2]) {
                        let j3 = choose|j3: int| 0 <= j3 < cur@.len() && cur@[j3] == prev@[k2];
                        assert(covers(next@[j3], z, p));
                    } else {
                        let i = choose|i: int| 0 <= i < out@.len() && out@[i] == open@[k2];
                        assert(covers(out@[i], z, p));
                    }
                }
            }
            assert forall|i: int| 0 <= i < out@.len() implies #[trigger] out@[i].top < y by {
                assert(out@[i].top <= y - 1);
            }
        }
        prev = cur;
        open = next;
        y = y + 1;
    }
    proof {
        assert forall|z: int, j: int| 0 <= z < pv.len() && 0 <= j < pv[z].len() implies
            covered(out@, z, #[trigger] pv[z][j]) by {
            if covered(open@, z, pv[z][j]) {
                let k = choose|k: int| 0 <= k < open@.len() && #[trigger] covers(open@[k], z, pv[z][j]);
            }
        }
    }
    out
}

} // verus!
