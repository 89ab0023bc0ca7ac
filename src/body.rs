//! Collision bodies in world units for the rectangles of a level.
use vstd::prelude::*;

use crate::rect::Rect;

verus! {

/// A static box-shaped collision body, placed relative to its level's origin.
///
/// Each measure is given in half world units, that is twice its value in
/// world units, so that it stays an exact integer for every grid size: the
/// body is `half_width` half units wide on each side of its center.
#[derive(Clone, Copy, Debug, PartialEq, Eq, Hash, Structural)]
pub struct ColliderBody {
    pub half_width: i64,
    pub half_height: i64,
    pub center_x: i64,
    pub center_y: i64,
}

/// `r` has a valid extent: non-negative column and row bounds, in order.
pub open spec fn rect_valid(r: Rect) -> bool {
    0 <= r.left <= r.right && 0 <= r.bottom <= r.top
}

/// `b` is the body of rectangle `r` for tiles of edge `grid_size`, in half
/// world units.
pub open spec fn body_of(b: ColliderBody, r: Rect, grid_size: int) -> bool {
    &&& b.half_width == (r.right - r.left + 1) * grid_size
    &&& b.half_height == (r.top - r.bottom + 1) * grid_size
    &&& b.center_x == (r.left + r.right + 1) * grid_size
    &&& b.center_y == (r.bottom + r.top + 1) * grid_size
}

proof fn lemma_product_fits(a: int, g: int)
    requires
        0 <= a < 0x1_0000_0000,
        i32::MIN <= g <= i32::MAX,
    ensures
        i64::MIN <= a * g <= i64::MAX,
{
    assert(-0x8000_0000 * a <= a * g <= 0x7fff_ffff * a) by (nonlinear_arith)
        requires
            0 <= a,
            -0x8000_0000 <= g <= 0x7fff_ffff;
}

/// The collision body of one rectangle.
pub fn collider_body(r: Rect, grid_size: i32) -> (b: ColliderBody)
    requires
        rect_valid(r),
    ensures
        body_of(b, r, grid_size as int),
{
    let g = grid_size as i64;
    let width = (r.right as i64) - (r.left as i64) + 1;
    let height = (r.top as i64) - (r.bottom as i64) + 1;
    let xs = (r.left as i64) + (r.right as i64) + 1;
    let ys = (r.bottom as i64) + (r.top as i64) + 1;
    proof {
        lemma_product_fits(width as int, g as int);
        lemma_product_fits(height as int, g as int);
        lemma_product_fits(xs as int, g as int);
        lemma_product_fits(ys as int, g as int);
    }
    ColliderBody { half_width: width * g, half_height: height * g, center_x: xs * g, center_y: ys * g }
}

/// The collision bodies of the rectangles, one each, in the same order.
pub fn collider_bodies(rs: &Vec<Rect>, grid_size: i32) -> (bs: Vec<ColliderBody>)
    requires
        forall|i: int| 0 <= i < rs@.len() ==> rect_valid(#[trigger] rs@[i]),
    ensures
        bs@.len() == rs@.len(),
        forall|i: int| 0 <= i < rs@.len() ==> body_of(#[trigger] bs@[i], rs@[i], grid_size as int),
{
    let mut bs: Vec<ColliderBody> = Vec::new();
    let mut i: usize = 0;
    while i < rs.len()
        invariant
            forall|k: int| 0 <= k < rs@.len() ==> rect_valid(#[trigger] rs@[k]),
            i <= rs@.len(),
            bs@.len() == i,
            forall|k: int| 0 <= k < i ==> body_of(#[trigger] bs@[k], rs@[k], grid_size as int),
        decreases rs@.len() - i,
    {
        bs.push(collider_body(rs[i], grid_size));
        i = i + 1;
    }
    bs
}

} // verus!
