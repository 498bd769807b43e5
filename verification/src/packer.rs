//! The rectangle packer: allocates non-overlapping padded rectangles inside a
//! fixed-size canvas, in the order requested, by a deterministic greedy
//! best-area-fit search over a guillotine-split free list.

use vstd::prelude::*;

use crate::geom::{
    lemma_contained_disjoint, padded_disjoint, rect_contains, rect_disjoint, tile_in_canvas,
    tiles_separated, Recti,
};

verus! {

/// A free region may host a `w` by `h` tile together with its right and
/// bottom gap of `p` pixels.
pub open spec fn fits(f: Recti, w: int, h: int, p: int) -> bool {
    &&& w + p <= f.width
    &&& h + p <= f.height
}

/// The free area left over when a `w` by `h` tile and its gap are cut out of
/// `f`; the quantity the greedy search minimizes.
pub open spec fn leftover(f: Recti, w: int, h: int, p: int) -> int {
    f.width * f.height - (w + p) * (h + p)
}

/// Deterministic strict preference between two candidate free regions:
/// smaller leftover area first, ties broken by lower y, then lower x.
pub open spec fn better(a: Recti, b: Recti, w: int, h: int, p: int) -> bool {
    ||| leftover(a, w, h, p) < leftover(b, w, h, p)
    ||| (leftover(a, w, h, p) == leftover(b, w, h, p) && (a.y < b.y || (a.y == b.y && a.x < b.x)))
}

/// No free region in `fr` can host a `w` by `h` tile.
pub open spec fn no_fit(fr: Seq<Recti>, w: int, h: int, p: int) -> bool {
    forall|i: int| 0 <= i < fr.len() ==> !fits(#[trigger] fr[i], w, h, p)
}

/// The initial free list of a `w` by `h` canvas with padding `p`: the whole
/// canvas inside the border gap, or nothing where the gap leaves no room.
pub open spec fn initial_free(w: int, h: int, p: int) -> Seq<Recti> {
    if w > p && h > p {
        seq![
            (Recti {
                x: p as usize,
                y: p as usize,
                width: (w - p) as usize,
                height: (h - p) as usize,
            }),
        ]
    } else {
        Seq::empty()
    }
}

/// The right and bottom fragments of the guillotine split of the free region
/// `f` around the consumed block of the tile `t`: what remains of `f` to the
/// right of the tile's column band, and all of `f` below the tile's row band.
pub open spec fn right_fragment(f: Recti, t: Recti, p: int) -> Recti {
    Recti {
        x: (f.x + t.width + p) as usize,
        y: f.y,
        width: (f.width - t.width - p) as usize,
        height: (t.height + p) as usize,
    }
}

pub open spec fn below_fragment(f: Recti, t: Recti, p: int) -> Recti {
    Recti {
        x: f.x,
        y: (f.y + t.height + p) as usize,
        width: f.width,
        height: (f.height - t.height - p) as usize,
    }
}

/// The free list `nf` that the guillotine split leaves when the tile is cut
/// from the free region `f`: `f` is removed and each fragment of nonzero
/// area is added back, the right one first.
pub open spec fn split_free(
    fr: Seq<Recti>,
    i: int,
    f: Recti,
    t: Recti,
    p: int,
) -> Seq<Recti> {
    let mid = fr.remove(i);
    if f.width > t.width + p && f.height > t.height + p {
        mid.push(right_fragment(f, t, p)).push(below_fragment(f, t, p))
    } else if f.width > t.width + p {
        mid.push(right_fragment(f, t, p))
    } else if f.height > t.height + p {
        mid.push(below_fragment(f, t, p))
    } else {
        mid
    }
}

/// The free region at index `i` hosts the tile and no other fitting free
/// region strictly beats it.
pub open spec fn is_best_choice(fr: Seq<Recti>, i: int, w: int, h: int, p: int) -> bool {
    &&& 0 <= i < fr.len()
    &&& fits(fr[i], w, h, p)
    &&& forall|j: int|
        0 <= j < fr.len() && fits(#[trigger] fr[j], w, h, p) ==> !better(fr[j], fr[i], w, h, p)
}

/// The index of the best fitting free region of `fr`. Meaningful where a
/// fitting region exists; in a well-formed packer that index is unique (see
/// `RectPacker::lemma_best_unique`), so this pins the choice outright.
pub open spec fn best_of(fr: Seq<Recti>, w: int, h: int, p: int) -> int {
    choose|b: int| is_best_choice(fr, b, w, h, p)
}

/// The tile `t` was cut from a fitting free region of `fr` that no other
/// fitting free region strictly beats, and `nf` is the free list the
/// guillotine split leaves behind.
pub open spec fn chosen_best(fr: Seq<Recti>, nf: Seq<Recti>, t: Recti, w: int, h: int, p: int) -> bool {
    exists|i: int|
        #[trigger] is_best_choice(fr, i, w, h, p) && t.x == fr[i].x && t.y == fr[i].y && nf
            == split_free(fr, i, fr[i], t, p)
}

/// A free region lies inside the canvas below and to the right of the border
/// gap, and has nonzero area.
spec fn free_rect_ok(f: Recti, w: int, h: int, p: int) -> bool {
    &&& p <= f.x
    &&& p <= f.y
    &&& f.x + f.width <= w
    &&& f.y + f.height <= h
    &&& f.width > 0
    &&& f.height > 0
}

/// The block of the placed tile `t` (the tile widened by `p` to the right and
/// below) shares no point with the free region `f`.
spec fn free_clear_of_tile(f: Recti, t: Recti, p: int) -> bool {
    ||| t.x + t.width + p <= f.x
    ||| f.x + f.width <= t.x
    ||| t.y + t.height + p <= f.y
    ||| f.y + f.height <= t.y
}

/// The packer's internal invariant over its free list and the tiles granted
/// so far.
spec fn packer_inv(fr: Seq<Recti>, tiles: Seq<Recti>, w: int, h: int, p: int) -> bool {
    &&& forall|i: int| 0 <= i < fr.len() ==> free_rect_ok(#[trigger] fr[i], w, h, p)
    &&& forall|i: int, j: int|
        0 <= i < fr.len() && 0 <= j < fr.len() && i != j ==> rect_disjoint(
            #[trigger] fr[i],
            #[trigger] fr[j],
        )
    &&& tiles_separated(tiles, w, h, p)
    &&& forall|i: int, j: int|
        0 <= i < fr.len() && 0 <= j < tiles.len() ==> free_clear_of_tile(
            #[trigger] fr[i],
            #[trigger] tiles[j],
            p,
        )
}

/// Maintains free-space state over a fixed-size 2D canvas and allocates
/// tight-fitting rectangles on demand.
///
/// Every granted rectangle of nonzero area keeps `padding` pixels of
/// clearance from the canvas border and from every other granted rectangle.
/// After a grant, the chosen free region is guillotine-split into at most two
/// fragments, one to the right of the consumed block and one below it.
pub struct RectPacker {
    width: usize,
    height: usize,
    padding: usize,
    free: Vec<Recti>,
    placed: Ghost<Seq<Recti>>,
}

impl RectPacker {
    pub closed spec fn canvas_width(&self) -> int {
        self.width as int
    }

    pub closed spec fn canvas_height(&self) -> int {
        self.height as int
    }

    pub closed spec fn pad(&self) -> int {
        self.padding as int
    }

    /// The nonzero-area tiles granted so far, in grant order.
    pub closed spec fn tiles(&self) -> Seq<Recti> {
        self.placed@
    }

    /// The current free regions, in list order.
    pub closed spec fn free_rects(&self) -> Seq<Recti> {
        self.free@
    }

    /// The packer's well-formedness: the free list and the granted tiles
    /// tile the canvas consistently.
    pub closed spec fn wf(&self) -> bool {
        &&& self.padding >= 1
        &&& self.width * self.height <= usize::MAX
        &&& packer_inv(
            self.free@,
            self.placed@,
            self.width as int,
            self.height as int,
            self.padding as int,
        )
    }

    /// In a well-formed packer the granted tiles are pairwise separated by
    /// the padding and keep it as clearance from the canvas border.
    pub proof fn lemma_tiles_separated(&self)
        requires
            self.wf(),
        ensures
            tiles_separated(self.tiles(), self.canvas_width(), self.canvas_height(), self.pad()),
    {
    }

    /// In a well-formed packer the best fitting free region is unique:
    /// distinct free regions are disjoint and of nonzero area, so they
    /// differ in leftover area or in origin, and the tie-break orders them
    /// strictly.
    pub proof fn lemma_best_unique(&self, w: int, h: int, p: int, i: int, j: int)
        requires
            self.wf(),
            is_best_choice(self.free_rects(), i, w, h, p),
            is_best_choice(self.free_rects(), j, w, h, p),
        ensures
            i == j,
    {
        let fr = self.free_rects();
        if i != j {
            assert(rect_disjoint(fr[i], fr[j]));
            assert(free_rect_ok(fr[i], self.width as int, self.height as int, self.padding as int));
            assert(free_rect_ok(fr[j], self.width as int, self.height as int, self.padding as int));
            assert(!better(fr[i], fr[j], w, h, p) && !better(fr[j], fr[i], w, h, p));
            assert(fr[i].x == fr[j].x && fr[i].y == fr[j].y);
            assert(false);
        }
    }

    /// A fresh packer over a `width` by `height` canvas with the given
    /// border and inter-tile padding. Nothing is granted yet; the whole
    /// canvas inside the border gap is free.
    pub fn new(width: usize, height: usize, padding: usize) -> (r: RectPacker)
        requires
            padding >= 1,
            width * height <= usize::MAX,
        ensures
            r.wf(),
            r.tiles() == Seq::<Recti>::empty(),
            r.canvas_width() == width,
            r.canvas_height() == height,
            r.pad() == padding,
            r.free_rects() == initial_free(width as int, height as int, padding as int),
    {
        let mut free: Vec<Recti> = Vec::new();
        if width > padding && height > padding {
            free.push(Recti { x: padding, y: padding, width: width - padding, height: height
                - padding });
        }
        proof {
            assert(free@ =~= initial_free(width as int, height as int, padding as int));
        }
        RectPacker { width, height, padding, free, placed: Ghost(Seq::empty()) }
    }

    /// A copy of the packer with the same free-space model, taken before a
    /// compound operation so that the caller can roll the operation back.
    #[verifier::loop_isolation(false)]
    pub fn snapshot(&self) -> (r: RectPacker)
        ensures
            r.canvas_width() == self.canvas_width(),
            r.canvas_height() == self.canvas_height(),
            r.pad() == self.pad(),
            r.free_rects() == self.free_rects(),
            r.tiles() == self.tiles(),
            self.wf() ==> r.wf(),
    {
        let mut free: Vec<Recti> = Vec::new();
        let mut i: usize = 0;
        while i < self.free.len()
            invariant
                i <= self.free@.len(),
                free@ == self.free@.subrange(0, i as int),
            decreases self.free@.len() - i,
        {
            free.push(self.free[i]);
            proof {
                assert(free@ =~= self.free@.subrange(0, i + 1));
            }
            i += 1;
        }
        proof {
            assert(free@ =~= self.free@);
        }
        RectPacker {
            width: self.width,
            height: self.height,
            padding: self.padding,
            free,
            placed: Ghost(self.placed@),
        }
    }

    /// Allocate a `w` by `h` tile.
    ///
    /// A zero-width or zero-height request always succeeds with the
    /// degenerate rectangle at the origin and leaves the packer untouched.
    /// Otherwise the best-area-fit free region (ties: lowest y, then lowest
    /// x) is guillotine-split and the tile is granted at that region's
    /// origin; if no free region can host the tile plus padding, the request
    /// fails and the packer is left unchanged.
    pub fn allocate(&mut self, w: usize, h: usize) -> (r: Option<Recti>)
        requires
            old(self).wf(),
        ensures
            final(self).wf(),
            final(self).canvas_width() == old(self).canvas_width(),
            final(self).canvas_height() == old(self).canvas_height(),
            final(self).pad() == old(self).pad(),
            (w == 0 || h == 0) ==> r == Some(Recti::zero()) && *final(self) == *old(self),
            (w > 0 && h > 0) ==> match r {
                Some(t) => {
                    &&& t.width == w
                    &&& t.height == h
                    &&& final(self).tiles() == old(self).tiles().push(t)
                    &&& chosen_best(
                        old(self).free_rects(),
                        final(self).free_rects(),
                        t,
                        w as int,
                        h as int,
                        old(self).pad(),
                    )
                },
                None => {
                    &&& *final(self) == *old(self)
                    &&& no_fit(old(self).free_rects(), w as int, h as int, old(self).pad())
                },
            },
    {
        if w == 0 || h == 0 {
            return Some(Recti { x: 0, y: 0, width: 0, height: 0 });
        }
        let p = self.padding;
        let ghost fr = self.free@;

        let mut found = false;
        let mut best_i: usize = 0;
        let mut best_l: usize = 0;
        let mut best_y: usize = 0;
        let mut best_x: usize = 0;
        let mut i: usize = 0;
        while i < self.free.len()
            invariant
                self.wf(),
                self.free@ == fr,
                p == self.padding,
                i <= fr.len(),
                w > 0,
                h > 0,
                found ==> best_i < i && fits(fr[best_i as int], w as int, h as int, p as int) && best_l == leftover(
                    fr[best_i as int],
                    w as int,
                    h as int,
                    p as int,
                ) && best_y == fr[best_i as int].y && best_x == fr[best_i as int].x,
                found ==> forall|j: int|
                    0 <= j < i && fits(#[trigger] fr[j], w as int, h as int, p as int) ==> !better(
                        fr[j],
                        fr[best_i as int],
                        w as int,
                        h as int,
                        p as int,
                    ),
                !found ==> forall|j: int|
                    0 <= j < i ==> !fits(#[trigger] fr[j], w as int, h as int, p as int),
            decreases fr.len() - i,
        {
            let f = self.free[i];
            if w <= f.width && p <= f.width - w && h <= f.height && p <= f.height - h {
                proof {
                    assert(free_rect_ok(
                        fr[i as int],
                        self.width as int,
                        self.height as int,
                        self.padding as int,
                    ));
                    assert(f.width * f.height <= self.width * self.height) by (nonlinear_arith)
                        requires
                            0 < f.width <= self.width,
                            0 < f.height <= self.height,
                    ;
                    assert((w + p) * (h + p) <= f.width * f.height) by (nonlinear_arith)
                        requires
                            0 < w + p <= f.width,
                            0 < h + p <= f.height,
                    ;
                }
                let area = f.width * f.height;
                let req = (w + p) * (h + p);
                let l = area - req;
                if !found || l < best_l || (l == best_l && (f.y < best_y || (f.y == best_y && f.x
                    < best_x))) {
                    found = true;
                    best_i = i;
                    best_l = l;
                    best_y = f.y;
                    best_x = f.x;
                }
            }
            i += 1;
        }

        if !found {
            return None;
        }

        let f = self.free[best_i];
        let _ = self.free.remove(best_i);
        let bw = w + p;
        let bh = h + p;
        let pushed_right = f.width > bw;
        let pushed_below = f.height > bh;
        if pushed_right {
            self.free.push(Recti { x: f.x + bw, y: f.y, width: f.width - bw, height: bh });
        }
        if pushed_below {
            self.free.push(Recti { x: f.x, y: f.y + bh, width: f.width, height: f.height - bh });
        }
        let tile = Recti { x: f.x, y: f.y, width: w, height: h };
        proof {
            assert(is_best_choice(fr, best_i as int, w as int, h as int, p as int));
            let ghost mid = fr.remove(best_i as int);
            lemma_split_preserves_inv(
                fr,
                mid,
                self.free@,
                self.placed@,
                f,
                tile,
                self.width as int,
                self.height as int,
                p as int,
                best_i as int,
                pushed_right,
                pushed_below,
            );
        }
        self.placed = Ghost(self.placed@.push(tile));
        Some(tile)
    }
}

/// Removing the chosen free region, adding back the nonzero guillotine
/// fragments, and recording the granted tile preserves the packer invariant.
proof fn lemma_split_preserves_inv(
    fr: Seq<Recti>,
    mid: Seq<Recti>,
    nf: Seq<Recti>,
    tiles: Seq<Recti>,
    f: Recti,
    t: Recti,
    cw: int,
    ch: int,
    p: int,
    bi: int,
    pushed_right: bool,
    pushed_below: bool,
)
    requires
        p >= 1,
        cw <= usize::MAX,
        ch <= usize::MAX,
        packer_inv(fr, tiles, cw, ch, p),
        0 <= bi < fr.len(),
        f == fr[bi],
        mid == fr.remove(bi),
        t.x == f.x,
        t.y == f.y,
        t.width > 0,
        t.height > 0,
        t.width + p <= f.width,
        t.height + p <= f.height,
        pushed_right <==> f.width > t.width + p,
        pushed_below <==> f.height > t.height + p,
        nf == split_free(fr, bi, f, t, p),
    ensures
        packer_inv(nf, tiles.push(t), cw, ch, p),
{
    let rf = right_fragment(f, t, p);
    let bf = below_fragment(f, t, p);
    assert(free_rect_ok(f, cw, ch, p));
    assert(f.x + f.width <= usize::MAX);
    assert(f.y + f.height <= usize::MAX);

    // Every element of the new free list is either an untouched old free
    // region or one of the two fragments, both of which lie inside `f`.
    assert forall|k: int| 0 <= k < nf.len() implies (exists|j: int|
        0 <= j < fr.len() && j != bi && nf[k] == fr[j]) || ((nf[k] == rf && pushed_right) || (
    nf[k] == bf && pushed_below)) by {
        if k < mid.len() {
            let j = if k < bi {
                k
            } else {
                k + 1
            };
            assert(0 <= j < fr.len() && j != bi && nf[k] == fr[j]);
        }
    }

    assert(rect_contains(f, rf));
    assert(rect_contains(f, bf));

    // 1. Each new free region is well-formed.
    assert forall|k: int| 0 <= k < nf.len() implies free_rect_ok(#[trigger] nf[k], cw, ch, p) by {
        if k >= mid.len() {
            assert(free_rect_ok(rf, cw, ch, p) || !pushed_right);
            assert(free_rect_ok(bf, cw, ch, p) || !pushed_below);
        }
    }

    // 2. New free regions are pairwise disjoint.
    assert forall|k1: int, k2: int|
        0 <= k1 < nf.len() && 0 <= k2 < nf.len() && k1 != k2 implies rect_disjoint(
        #[trigger] nf[k1],
        #[trigger] nf[k2],
    ) by {
        lemma_pair_disjoint(fr, mid, nf, f, t, p, bi, pushed_right, pushed_below, k1, k2);
    }

    // 3. The granted tiles, with `t` appended, stay separated.
    let nts = tiles.push(t);
    assert(tile_in_canvas(t, cw, ch, p));
    assert forall|i: int, j: int|
        0 <= i < nts.len() && 0 <= j < nts.len() && i != j implies padded_disjoint(
        #[trigger] nts[i],
        #[trigger] nts[j],
        p,
    ) by {
        if i < tiles.len() && j < tiles.len() {
            assert(padded_disjoint(tiles[i], tiles[j], p));
        } else if i < tiles.len() {
            assert(free_clear_of_tile(f, tiles[i], p));
        } else {
            assert(free_clear_of_tile(f, tiles[j], p));
        }
    }

    // 4. Each new free region is clear of each granted tile.
    assert forall|k: int, j: int|
        0 <= k < nf.len() && 0 <= j < nts.len() implies free_clear_of_tile(
        #[trigger] nf[k],
        #[trigger] nts[j],
        p,
    ) by {
        let g = nf[k];
        if j < tiles.len() {
            let u = tiles[j];
            if exists|m: int| 0 <= m < fr.len() && m != bi && g == fr[m] {
                let m = choose|m: int| 0 <= m < fr.len() && m != bi && g == fr[m];
                assert(free_clear_of_tile(fr[m], u, p));
            } else {
                // A fragment lies inside `f`, which is clear of `u`.
                assert(free_clear_of_tile(f, u, p));
                assert(rect_contains(f, g));
            }
        } else {
            // Versus the fresh tile `t`: old regions were disjoint from the
            // whole of `f`, which contains the consumed block; the fragments
            // start exactly past the block.
            if exists|m: int| 0 <= m < fr.len() && m != bi && g == fr[m] {
                let m = choose|m: int| 0 <= m < fr.len() && m != bi && g == fr[m];
                assert(rect_disjoint(fr[m], f));
            }
        }
    }
}

/// Pairwise disjointness of the new free list after a guillotine split.
proof fn lemma_pair_disjoint(
    fr: Seq<Recti>,
    mid: Seq<Recti>,
    nf: Seq<Recti>,
    f: Recti,
    t: Recti,
    p: int,
    bi: int,
    pushed_right: bool,
    pushed_below: bool,
    k1: int,
    k2: int,
)
    requires
        p >= 1,
        f.x + f.width <= usize::MAX,
        f.y + f.height <= usize::MAX,
        0 <= bi < fr.len(),
        f == fr[bi],
        mid == fr.remove(bi),
        forall|i: int, j: int|
            0 <= i < fr.len() && 0 <= j < fr.len() && i != j ==> rect_disjoint(
                #[trigger] fr[i],
                #[trigger] fr[j],
            ),
        t.x == f.x,
        t.y == f.y,
        t.width > 0,
        t.height > 0,
        t.width + p <= f.width,
        t.height + p <= f.height,
        pushed_right <==> f.width > t.width + p,
        pushed_below <==> f.height > t.height + p,
        nf == split_free(fr, bi, f, t, p),
        0 <= k1 < nf.len(),
        0 <= k2 < nf.len(),
        k1 != k2,
    ensures
        rect_disjoint(nf[k1], nf[k2]),
{
    let rf = right_fragment(f, t, p);
    let bf = below_fragment(f, t, p);
    assert(rect_contains(f, rf));
    assert(rect_contains(f, bf));
    assert(rect_disjoint(rf, bf));
    if k1 < mid.len() && k2 < mid.len() {
        let j1 = if k1 < bi {
            k1
        } else {
            k1 + 1
        };
        let j2 = if k2 < bi {
            k2
        } else {
            k2 + 1
        };
        assert(rect_disjoint(fr[j1], fr[j2]));
    } else if k1 < mid.len() {
        let j1 = if k1 < bi {
            k1
        } else {
            k1 + 1
        };
        assert(rect_disjoint(fr[j1], fr[bi]));
        lemma_contained_disjoint(f, nf[k2], nf[k1]);
    } else if k2 < mid.len() {
        let j2 = if k2 < bi {
            k2
        } else {
            k2 + 1
        };
        assert(rect_disjoint(fr[j2], fr[bi]));
        lemma_contained_disjoint(f, nf[k1], nf[k2]);
    } else {
        // both fragments
        assert(nf[k1] == rf || nf[k1] == bf);
        assert(nf[k2] == rf || nf[k2] == bf);
    }
}

} // verus!
