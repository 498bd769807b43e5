//! Plain integer geometry: 2D vectors, rectangles, and the spatial relations
//! the packer's contracts are stated over.

use vstd::prelude::*;

verus! {

/// A 2D integer vector; used for glyph bearings and advances, which may be
/// negative.
#[derive(Clone, Copy, Debug, PartialEq, Eq, Structural)]
pub struct Vec2i {
    pub x: i32,
    pub y: i32,
}

/// An axis-aligned rectangle with non-negative origin and size, in canvas
/// coordinates (x grows right, y grows down).
#[derive(Clone, Copy, Debug, PartialEq, Eq, Structural)]
pub struct Recti {
    pub x: usize,
    pub y: usize,
    pub width: usize,
    pub height: usize,
}

impl Recti {
    pub fn new(x: usize, y: usize, width: usize, height: usize) -> (r: Recti)
        ensures
            r == (Recti { x, y, width, height }),
    {
        Recti { x, y, width, height }
    }

    /// The zero-area rectangle at the origin, granted for degenerate tiles.
    pub open spec fn zero() -> Recti {
        Recti { x: 0, y: 0, width: 0, height: 0 }
    }
}

/// Two rectangles share no point. Only meaningful for rectangles of nonzero
/// area; a zero-area rectangle occupies no point at all, but this formula may
/// still call it overlapping.
pub open spec fn rect_disjoint(a: Recti, b: Recti) -> bool {
    ||| a.x + a.width <= b.x
    ||| b.x + b.width <= a.x
    ||| a.y + a.height <= b.y
    ||| b.y + b.height <= a.y
}

/// `inner` lies entirely inside `outer`.
pub open spec fn rect_contains(outer: Recti, inner: Recti) -> bool {
    &&& outer.x <= inner.x
    &&& inner.x + inner.width <= outer.x + outer.width
    &&& outer.y <= inner.y
    &&& inner.y + inner.height <= outer.y + outer.height
}

/// The two tiles are separated by a gap of at least `p` pixels along some
/// axis: equivalently, the blocks obtained by widening each tile by `p` to
/// the right and below share no point.
pub open spec fn padded_disjoint(a: Recti, b: Recti, p: int) -> bool {
    ||| a.x + a.width + p <= b.x
    ||| b.x + b.width + p <= a.x
    ||| a.y + a.height + p <= b.y
    ||| b.y + b.height + p <= a.y
}

/// A placed tile keeps at least `p` pixels of clearance from every edge of a
/// `w` by `h` canvas.
pub open spec fn tile_in_canvas(t: Recti, w: int, h: int, p: int) -> bool {
    &&& p <= t.x
    &&& p <= t.y
    &&& t.x + t.width + p <= w
    &&& t.y + t.height + p <= h
}

/// What the packer guarantees of every sequence of granted tiles: each has
/// nonzero area, sits inside the canvas with `p` pixels of border clearance,
/// and any two are separated by a gap of at least `p` pixels.
pub open spec fn tiles_separated(tiles: Seq<Recti>, w: int, h: int, p: int) -> bool {
    &&& forall|i: int|
        0 <= i < tiles.len() ==> #[trigger] tile_in_canvas(tiles[i], w, h, p) && tiles[i].width
            > 0 && tiles[i].height > 0
    &&& forall|i: int, j: int|
        0 <= i < tiles.len() && 0 <= j < tiles.len() && i != j ==> padded_disjoint(
            #[trigger] tiles[i],
            #[trigger] tiles[j],
            p,
        )
}

/// A rectangle contained in a rectangle disjoint from `c` is itself disjoint
/// from `c`.
pub proof fn lemma_contained_disjoint(outer: Recti, inner: Recti, c: Recti)
    requires
        rect_contains(outer, inner),
        rect_disjoint(outer, c),
    ensures
        rect_disjoint(inner, c),
{
}

} // verus!
