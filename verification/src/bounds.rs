//! Areas, the trait of things that occupy an area, and the geometry that
//! decides in which quadrant of an area an element fits.
use vstd::prelude::*;

verus! {

/// A bounded area represented by x, y, width, and height.
#[derive(PartialEq, Eq, Structural, Clone, Copy, Debug)]
pub struct Bounds {
    /// x coordinate
    pub x: i64,
    /// y coordinate
    pub y: i64,
    /// width
    pub width: i64,
    /// height
    pub height: i64,
}

/// Elements of the quadtree must implement this trait.
///
/// The tree calls `bounds` once for an element, when it is inserted, and
/// once for the element of a query, when the query starts; it keeps the
/// areas it got.
pub trait Bounded {
    /// Returns a bounded area.
    fn bounds(&self) -> Bounds;
}

impl Bounded for Bounds {
    fn bounds(&self) -> (b: Bounds)
        ensures
            b == *self,
    {
        *self
    }
}

/// One of the four quarters of an area: top left, top right, bottom right,
/// bottom left.
#[derive(PartialEq, Eq, Structural, Clone, Copy, Debug)]
pub enum Quadrant {
    TL,
    TR,
    BR,
    BL,
}

/// The tree keeps the areas of its nodes in units of `1 / SCALE`: halving
/// such an area, down to the depth limit, then gives exact integers.
pub const SCALE: i64 = 1024;

/// `r`, with its coordinates multiplied by `k`, lies in the left half of
/// `b`: from the left edge on, and short of the dividing line
/// `b.x + b.width / 2` (compared doubled, so that the half is exact).
pub open spec fn fits_left(b: Bounds, r: Bounds, k: int) -> bool {
    k * r.x >= b.x && 2 * (k * (r.x + r.width)) < 2 * b.x + b.width
}

/// `r`, scaled by `k`, lies in the right half of `b`: from the dividing
/// line on, and short of the right edge.
pub open spec fn fits_right(b: Bounds, r: Bounds, k: int) -> bool {
    2 * (k * r.x) >= 2 * b.x + b.width && k * (r.x + r.width) < b.x + b.width
}

/// `r`, scaled by `k`, lies in the top half of `b`.
pub open spec fn fits_top(b: Bounds, r: Bounds, k: int) -> bool {
    k * r.y >= b.y && 2 * (k * (r.y + r.height)) < 2 * b.y + b.height
}

/// `r`, scaled by `k`, lies in the bottom half of `b`.
pub open spec fn fits_bottom(b: Bounds, r: Bounds, k: int) -> bool {
    2 * (k * r.y) >= 2 * b.y + b.height && k * (r.y + r.height) < b.y + b.height
}

/// The quadrant of `b` in which `r`, scaled by `k`, fits entirely, if there
/// is one. Left and top edges count as inside, right and bottom edges and
/// the dividing lines as outside.
pub open spec fn quadrant_of(b: Bounds, r: Bounds, k: int) -> Option<Quadrant> {
    if fits_top(b, r, k) && fits_left(b, r, k) {
        Some(Quadrant::TL)
    } else if fits_top(b, r, k) && fits_right(b, r, k) {
        Some(Quadrant::TR)
    } else if fits_bottom(b, r, k) && fits_right(b, r, k) {
        Some(Quadrant::BR)
    } else if fits_bottom(b, r, k) && fits_left(b, r, k) {
        Some(Quadrant::BL)
    } else {
        None
    }
}

/// `r`, scaled by `k`, lies inside `b`: from its left and top edges on, and
/// short of its right and bottom edges.
pub open spec fn contains_spec(b: Bounds, r: Bounds, k: int) -> bool {
    &&& k * r.x >= b.x
    &&& k * (r.x + r.width) < b.x + b.width
    &&& k * r.y >= b.y
    &&& k * (r.y + r.height) < b.y + b.height
}

/// The areas `a` and `b` overlap: their extents, edges included, meet on
/// both axes.
pub open spec fn overlaps(a: Bounds, b: Bounds) -> bool {
    &&& a.x <= b.x + b.width
    &&& b.x <= a.x + a.width
    &&& a.y <= b.y + b.height
    &&& b.y <= a.y + a.height
}

/// Two areas that fit in different quadrants of one area do not overlap.
pub proof fn law_quadrants_apart(b: Bounds, r1: Bounds, r2: Bounds, k: int)
    requires
        k > 0,
        quadrant_of(b, r1, k) is Some,
        quadrant_of(b, r2, k) is Some,
        quadrant_of(b, r1, k) != quadrant_of(b, r2, k),
    ensures
        !overlaps(r1, r2),
{
    lemma_scaled_apart(r1.x + r1.width, r2.x as int, k);
    lemma_scaled_apart(r2.x + r2.width, r1.x as int, k);
    lemma_scaled_apart(r1.y + r1.height, r2.y as int, k);
    lemma_scaled_apart(r2.y + r2.height, r1.y as int, k);
}

/// Scaling by a positive factor keeps a strict order.
proof fn lemma_scaled_apart(a: int, c: int, k: int)
    requires
        k > 0,
    ensures
        2 * (k * a) < 2 * (k * c) ==> a < c,
        k * a < k * c ==> a < c,
{
    if k * a < k * c {
        assert(a < c) by (nonlinear_arith)
            requires
                k > 0,
                k * a < k * c,
        ;
    }
}

/// An area that fits a quadrant of an area of non-negative width and height
/// lies inside that area; where its width and height are even, it lies
/// inside that quadrant's area: from its left and top edges on, and short of
/// its right and bottom edges.
pub proof fn law_quadrant_inside(b: Bounds, r: Bounds, k: int)
    requires
        k > 0,
        b.width >= 0,
        b.height >= 0,
    ensures
        quadrant_of(b, r, k) is Some ==> contains_spec(b, r, k),
        edges_fit(b) && b.width % 2 == 0 && b.height % 2 == 0 && quadrant_of(b, r, k) is Some
            ==> contains_spec(quadrant_bounds(b, quadrant_of(b, r, k)->0), r, k),
{
    lemma_scaled_apart(r.x + r.width, b.x as int, k);
    lemma_scaled_apart(r.y + r.height, b.y as int, k);
    assert(k * (r.x + r.width) == k * r.x + k * r.width) by (nonlinear_arith);
    assert(k * (r.y + r.height) == k * r.y + k * r.height) by (nonlinear_arith);
}

/// Scaling an area and the areas tested against it by the same factor
/// leaves every answer as it was: `r` lies inside `b`, or fits a given
/// quadrant of `b`, exactly when it does so against `scaled(b)` with `r`
/// scaled by `SCALE`.
pub proof fn law_scaling_keeps_geometry(b: Bounds, r: Bounds)
    requires
        scaled_fits(b),
    ensures
        contains_spec(scaled(b), r, SCALE as int) == contains_spec(b, r, 1),
        quadrant_of(scaled(b), r, SCALE as int) == quadrant_of(b, r, 1),
{
}

/// The area of quadrant `q` of `b`: the left or right half, top or bottom
/// half, each of half the width and height.
pub open spec fn quadrant_bounds(b: Bounds, q: Quadrant) -> Bounds {
    let w = (b.width / 2) as i64;
    let h = (b.height / 2) as i64;
    match q {
        Quadrant::TL => Bounds { x: b.x, y: b.y, width: w, height: h },
        Quadrant::TR => Bounds { x: (b.x + w) as i64, y: b.y, width: w, height: h },
        Quadrant::BR => Bounds { x: (b.x + w) as i64, y: (b.y + h) as i64, width: w, height: h },
        Quadrant::BL => Bounds { x: b.x, y: (b.y + h) as i64, width: w, height: h },
    }
}

/// The far edges of `b` are representable, so that halving it gives areas
/// whose coordinates are representable too.
pub open spec fn edges_fit(b: Bounds) -> bool {
    &&& i64::MIN <= b.x + b.width <= i64::MAX
    &&& i64::MIN <= b.y + b.height <= i64::MAX
}

/// `b` in units of `1 / SCALE`.
pub open spec fn scaled(b: Bounds) -> Bounds {
    Bounds {
        x: (SCALE * b.x) as i64,
        y: (SCALE * b.y) as i64,
        width: (SCALE * b.width) as i64,
        height: (SCALE * b.height) as i64,
    }
}

/// `b` can be represented in units of `1 / SCALE`, far edges included.
pub open spec fn scaled_fits(b: Bounds) -> bool {
    &&& i64::MIN <= SCALE * b.x <= i64::MAX
    &&& i64::MIN <= SCALE * b.y <= i64::MAX
    &&& i64::MIN <= SCALE * b.width <= i64::MAX
    &&& i64::MIN <= SCALE * b.height <= i64::MAX
    &&& i64::MIN <= SCALE * (b.x + b.width) <= i64::MAX
    &&& i64::MIN <= SCALE * (b.y + b.height) <= i64::MAX
}

/// `v` multiplied by `k`.
fn times(v: i128, k: i128) -> (p: i128)
    requires
        -0x4_0000_0000_0000_0000 <= v <= 0x4_0000_0000_0000_0000,
        1 <= k <= 2048,
    ensures
        p == k * v,
        -0x4_0000_0000_0000_0000 * 2048 <= p <= 0x4_0000_0000_0000_0000 * 2048,
{
    proof {
        assert(-0x4_0000_0000_0000_0000 * 2048 <= k * v <= 0x4_0000_0000_0000_0000 * 2048)
            by (nonlinear_arith)
            requires
                -0x4_0000_0000_0000_0000 <= v <= 0x4_0000_0000_0000_0000,
                1 <= k <= 2048,
        ;
    }
    k * v
}

/// The quadrant of `b` in which `r`, scaled by `k`, fits entirely, if there
/// is one.
pub fn quadrant_at(b: &Bounds, r: &Bounds, k: i64) -> (q: Option<Quadrant>)
    requires
        1 <= k <= SCALE,
    ensures
        q == quadrant_of(*b, *r, k as int),
{
    let k: i128 = k as i128;
    let bx: i128 = b.x as i128;
    let by: i128 = b.y as i128;
    let bw: i128 = b.width as i128;
    let bh: i128 = b.height as i128;
    let left: i128 = times(r.x as i128, k);
    let top: i128 = times(r.y as i128, k);
    let right: i128 = times((r.x as i128) + (r.width as i128), k);
    let bottom: i128 = times((r.y as i128) + (r.height as i128), k);

    let fits_left_half = left >= bx && 2 * right < 2 * bx + bw;
    let fits_right_half = 2 * left >= 2 * bx + bw && right < bx + bw;
    let fits_top_half = top >= by && 2 * bottom < 2 * by + bh;
    let fits_bottom_half = 2 * top >= 2 * by + bh && bottom < by + bh;

    if fits_top_half && fits_left_half {
        Some(Quadrant::TL)
    } else if fits_top_half && fits_right_half {
        Some(Quadrant::TR)
    } else if fits_bottom_half && fits_right_half {
        Some(Quadrant::BR)
    } else if fits_bottom_half && fits_left_half {
        Some(Quadrant::BL)
    } else {
        None
    }
}

/// The quadrant of `b` in which `r` fits entirely, if there is one.
pub fn get_quadrant(b: &Bounds, r: &Bounds) -> (q: Option<Quadrant>)
    ensures
        q == quadrant_of(*b, *r, 1),
{
    quadrant_at(b, r, 1)
}

/// Whether `r`, scaled by `k`, lies inside `b`.
pub fn contains_at(b: &Bounds, r: &Bounds, k: i64) -> (c: bool)
    requires
        1 <= k <= SCALE,
    ensures
        c == contains_spec(*b, *r, k as int),
{
    let k: i128 = k as i128;
    let bx: i128 = b.x as i128;
    let by: i128 = b.y as i128;
    let left: i128 = times(r.x as i128, k);
    let top: i128 = times(r.y as i128, k);
    let right: i128 = times((r.x as i128) + (r.width as i128), k);
    let bottom: i128 = times((r.y as i128) + (r.height as i128), k);
    left >= bx && right < bx + (b.width as i128) && top >= by && bottom < by + (b.height as i128)
}

/// Whether `r` lies inside `b`.
pub fn contains(b: &Bounds, r: &Bounds) -> (c: bool)
    ensures
        c == contains_spec(*b, *r, 1),
{
    contains_at(b, r, 1)
}

/// The area of quadrant `q` of `b`, whose width and height are even.
pub fn get_quadrant_bounds(b: &Bounds, q: Quadrant) -> (r: Bounds)
    requires
        edges_fit(*b),
        b.width % 2 == 0,
        b.height % 2 == 0,
    ensures
        r == quadrant_bounds(*b, q),
        edges_fit(r),
{
    let w = b.width / 2;
    let h = b.height / 2;
    match q {
        Quadrant::TL => Bounds { x: b.x, y: b.y, width: w, height: h },
        Quadrant::TR => Bounds { x: b.x + w, y: b.y, width: w, height: h },
        Quadrant::BR => Bounds { x: b.x + w, y: b.y + h, width: w, height: h },
        Quadrant::BL => Bounds { x: b.x, y: b.y + h, width: w, height: h },
    }
}

/// `b` in units of `1 / SCALE`.
pub fn scale_up(b: &Bounds) -> (s: Bounds)
    requires
        scaled_fits(*b),
    ensures
        s == scaled(*b),
        s.x == SCALE * b.x,
        s.y == SCALE * b.y,
        s.width == SCALE * b.width,
        s.height == SCALE * b.height,
        edges_fit(s),
{
    Bounds {
        x: SCALE * b.x,
        y: SCALE * b.y,
        width: SCALE * b.width,
        height: SCALE * b.height,
    }
}

} // verus!
