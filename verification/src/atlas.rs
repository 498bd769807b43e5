//! The atlas: a single-channel pixel canvas, the packer that hands out
//! rectangles inside it, and the icon and font entries recorded as tiles are
//! placed.

use vstd::arithmetic::div_mod::lemma_fundamental_div_mod;
use vstd::prelude::*;

use crate::error::AtlasError;
use crate::geom::{padded_disjoint, tile_in_canvas, tiles_separated, Recti, Vec2i};
use crate::names::{format_path, name_of};
use crate::packer::{best_of, chosen_best, is_best_choice, no_fit, split_free, RectPacker};

verus! {

/// The pixel of the row-major canvas `pix` (of row length `cw`) at column
/// `x`, row `y`.
pub open spec fn pix_at(pix: Seq<u8>, cw: int, x: int, y: int) -> u8 {
    pix[y * cw + x]
}

/// (x, y) lies inside the rectangle `r`.
pub open spec fn in_rect(r: Recti, x: int, y: int) -> bool {
    &&& r.x <= x < r.x + r.width
    &&& r.y <= y < r.y + r.height
}

/// The canvas `pix` holds the row-major source bitmap `src` inside the
/// rectangle `r`.
pub open spec fn blitted(pix: Seq<u8>, cw: int, r: Recti, src: Seq<u8>) -> bool {
    forall|x: int, y: int|
        in_rect(r, x, y) ==> #[trigger] pix_at(pix, cw, x, y) == src[(y - r.y) * r.width + (x
            - r.x)]
}

/// The canvases `a` and `b` agree on every pixel outside the rectangle `r`.
pub open spec fn same_outside(a: Seq<u8>, b: Seq<u8>, cw: int, ch: int, r: Recti) -> bool {
    forall|x: int, y: int|
        0 <= x < cw && 0 <= y < ch && !in_rect(r, x, y) ==> #[trigger] pix_at(a, cw, x, y)
            == pix_at(b, cw, x, y)
}

/// One rasterized glyph or placed character: bearing, cursor advance, and
/// where its pixels sit in the atlas.
#[derive(Clone, Copy, Debug, PartialEq, Eq, Structural)]
pub struct CharEntry {
    /// Signed bearing of the bitmap relative to the baseline origin.
    pub offset: Vec2i,
    /// How far the text cursor moves after this character.
    pub advance: Vec2i,
    /// Placement of the glyph's pixels in the atlas.
    pub rect: Recti,
}

/// A font rasterized at one pixel size: one entry per printable ASCII code,
/// 32 through 126, in ascending code order.
#[derive(Debug)]
pub struct Font {
    /// The vertical span any line of text at this size can occupy.
    pub line_size: usize,
    /// The pixel size the font was rasterized at.
    pub font_size: usize,
    /// Entry `i` describes character code `32 + i`.
    pub entries: Vec<CharEntry>,
}

/// An icon's placement in the atlas.
#[derive(Clone, Copy, Debug, PartialEq, Eq, Structural)]
pub struct Icon {
    pub rect: Recti,
}

/// A rasterized glyph as handed in by the rasterizer: integer layout metrics
/// (bearings and advances truncated toward zero) and a row-major
/// single-channel bitmap of `width * height` bytes.
#[derive(Debug)]
pub struct GlyphBitmap {
    pub width: usize,
    pub height: usize,
    /// Signed horizontal bearing.
    pub xmin: i32,
    /// Signed vertical bearing: offset of the bitmap's bottom edge from the
    /// baseline.
    pub ymin: i32,
    pub advance_x: i32,
    pub advance_y: i32,
    pub bitmap: Vec<u8>,
}

/// The glyph's lowest extent relative to the baseline when rasterized at
/// `size`: the quantity whose span over all glyphs gives a font's line size.
pub open spec fn drop_of(size: int, g: GlyphBitmap) -> int {
    size - g.ymin - g.height
}

/// The least glyph drop over a nonempty glyph sequence.
pub open spec fn min_drop(size: int, gs: Seq<GlyphBitmap>) -> int
    decreases gs.len(),
{
    if gs.len() <= 1 {
        drop_of(size, gs[0])
    } else if drop_of(size, gs.last()) < min_drop(size, gs.drop_last()) {
        drop_of(size, gs.last())
    } else {
        min_drop(size, gs.drop_last())
    }
}

/// The greatest glyph drop over a nonempty glyph sequence.
pub open spec fn max_drop(size: int, gs: Seq<GlyphBitmap>) -> int
    decreases gs.len(),
{
    if gs.len() <= 1 {
        drop_of(size, gs[0])
    } else if drop_of(size, gs.last()) > max_drop(size, gs.drop_last()) {
        drop_of(size, gs.last())
    } else {
        max_drop(size, gs.drop_last())
    }
}

/// Each character entry carries its glyph's bearing and advance, and a
/// placement rectangle of the glyph's dimensions that is one of the granted
/// tiles; a zero-area glyph gets the degenerate rectangle.
pub open spec fn entries_match(
    entries: Seq<CharEntry>,
    glyphs: Seq<GlyphBitmap>,
    tiles: Seq<Recti>,
) -> bool {
    &&& entries.len() == glyphs.len()
    &&& forall|i: int|
        0 <= i < entries.len() ==> {
            let e = #[trigger] entries[i];
            let g = glyphs[i];
            &&& e.offset == (Vec2i { x: g.xmin, y: g.ymin })
            &&& e.advance == (Vec2i { x: g.advance_x, y: g.advance_y })
            &&& (g.width > 0 && g.height > 0 ==> e.rect.width == g.width && e.rect.height
                == g.height && tiles.contains(e.rect))
            &&& ((g.width == 0 || g.height == 0) ==> e.rect == Recti::zero())
        }
}

/// (x, y) lies inside the placement rectangle of one of the first `n`
/// entries.
pub open spec fn in_some_entry(entries: Seq<CharEntry>, n: int, x: int, y: int) -> bool {
    exists|j: int| 0 <= j < n && in_rect((#[trigger] entries[j]).rect, x, y)
}

/// The tile a glyph gets when cut from the free region at index `b`: the
/// region's origin with the glyph's dimensions.
pub open spec fn tile_at(fr: Seq<Recti>, b: int, g: GlyphBitmap) -> Recti {
    Recti { x: fr[b].x, y: fr[b].y, width: g.width, height: g.height }
}

/// The free list after the first `k` glyphs have been placed, starting from
/// `fr`: each zero-area glyph leaves it alone, and each other glyph consumes
/// the best fitting region by the guillotine split. Together with
/// [`glyph_rect`] this determines every placement from the starting state
/// and the glyph sequence alone, so equal inputs give equal outcomes.
pub open spec fn free_after(fr: Seq<Recti>, gs: Seq<GlyphBitmap>, k: int, p: int) -> Seq<Recti>
    decreases k,
{
    if k <= 0 {
        fr
    } else {
        let prev = free_after(fr, gs, k - 1, p);
        let g = gs[k - 1];
        if g.width == 0 || g.height == 0 {
            prev
        } else {
            let b = best_of(prev, g.width as int, g.height as int, p);
            split_free(prev, b, prev[b], tile_at(prev, b, g), p)
        }
    }
}

/// The rectangle glyph `k` is recorded under: the degenerate rectangle for a
/// zero-area glyph, else the tile cut from the best fitting region of the
/// free list the earlier glyphs left.
pub open spec fn glyph_rect(fr: Seq<Recti>, gs: Seq<GlyphBitmap>, k: int, p: int) -> Recti {
    let g = gs[k];
    if g.width == 0 || g.height == 0 {
        Recti::zero()
    } else {
        let prev = free_after(fr, gs, k, p);
        tile_at(prev, best_of(prev, g.width as int, g.height as int, p), g)
    }
}

/// The placement rectangles of the positive-area glyphs among the first `n`,
/// in glyph order: exactly the tiles a font addition appends, each one
/// granted once.
pub open spec fn placed_rects(entries: Seq<CharEntry>, gs: Seq<GlyphBitmap>, n: int) -> Seq<Recti>
    decreases n,
{
    if n <= 0 {
        Seq::empty()
    } else if gs[n - 1].width > 0 && gs[n - 1].height > 0 {
        placed_rects(entries, gs, n - 1).push(entries[n - 1].rect)
    } else {
        placed_rects(entries, gs, n - 1)
    }
}

/// A glyph whose bitmap covers at least one pixel, and therefore gets a tile
/// of its own.
pub open spec fn positive_glyph(g: GlyphBitmap) -> bool {
    g.width > 0 && g.height > 0
}

/// How many of the first `n` glyphs are of positive area: the length of
/// [`placed_rects`], and the tile-sequence offset of glyph `n`'s rectangle.
pub open spec fn pos_count(gs: Seq<GlyphBitmap>, n: int) -> int
    decreases n,
{
    if n <= 0 {
        0
    } else if positive_glyph(gs[n - 1]) {
        pos_count(gs, n - 1) + 1
    } else {
        pos_count(gs, n - 1)
    }
}

proof fn lemma_placed_rects_len(e: Seq<CharEntry>, gs: Seq<GlyphBitmap>, n: int)
    ensures
        placed_rects(e, gs, n).len() == pos_count(gs, n),
        pos_count(gs, n) >= 0,
    decreases n,
{
    if n > 0 {
        lemma_placed_rects_len(e, gs, n - 1);
    }
}

/// The rectangle of positive glyph `i` stands at position `pos_count(gs, i)`
/// of the placed-rectangle sequence.
proof fn lemma_placed_rects_index(e: Seq<CharEntry>, gs: Seq<GlyphBitmap>, n: int, i: int)
    requires
        0 <= i < n,
        positive_glyph(gs[i]),
    ensures
        0 <= pos_count(gs, i) < placed_rects(e, gs, n).len(),
        placed_rects(e, gs, n)[pos_count(gs, i)] == e[i].rect,
    decreases n,
{
    lemma_placed_rects_len(e, gs, i);
    lemma_placed_rects_len(e, gs, n);
    if i == n - 1 {
        lemma_placed_rects_len(e, gs, n - 1);
    } else {
        lemma_placed_rects_index(e, gs, n - 1, i);
    }
}

/// Counting positive glyphs is strictly monotone across a positive glyph.
proof fn lemma_pos_count_mono(gs: Seq<GlyphBitmap>, i: int, j: int)
    requires
        0 <= i < j,
        positive_glyph(gs[i]),
    ensures
        pos_count(gs, i) < pos_count(gs, j),
    decreases j,
{
    if j > i + 1 {
        lemma_pos_count_mono(gs, i, j - 1);
    }
}

/// After a successful font addition the positive-area glyph rectangles stand
/// at pairwise distinct positions of the granted-tile sequence, so any two
/// of them, and any of them against a tile granted earlier (an icon's, or
/// another font's glyph), are separated by the padding, and each keeps the
/// padding as clearance from the canvas border. The premises are exactly
/// what `add_font` ensures of a well-formed atlas.
pub proof fn lemma_font_rects_separated(
    entries: Seq<CharEntry>,
    gs: Seq<GlyphBitmap>,
    old_tiles: Seq<Recti>,
    tiles: Seq<Recti>,
    w: int,
    h: int,
    p: int,
)
    requires
        entries.len() == gs.len(),
        tiles == old_tiles + placed_rects(entries, gs, entries.len() as int),
        tiles_separated(tiles, w, h, p),
    ensures
        forall|i: int|
            0 <= i < entries.len() && positive_glyph(gs[i]) ==> tile_in_canvas(
                (#[trigger] entries[i]).rect,
                w,
                h,
                p,
            ),
        forall|i: int, j: int|
            0 <= i < entries.len() && 0 <= j < entries.len() && i != j && positive_glyph(gs[i])
                && positive_glyph(gs[j]) ==> padded_disjoint(
                (#[trigger] entries[i]).rect,
                (#[trigger] entries[j]).rect,
                p,
            ),
        forall|i: int, t: int|
            0 <= i < entries.len() && positive_glyph(gs[i]) && 0 <= t < old_tiles.len()
                ==> padded_disjoint((#[trigger] entries[i]).rect, #[trigger] old_tiles[t], p),
{
    let n = entries.len() as int;
    let base = old_tiles.len() as int;
    assert forall|i: int|
        0 <= i < n && positive_glyph(gs[i]) implies tile_in_canvas(
        (#[trigger] entries[i]).rect,
        w,
        h,
        p,
    ) by {
        lemma_placed_rects_index(entries, gs, n, i);
        assert(tiles[base + pos_count(gs, i)] == entries[i].rect);
    }
    assert forall|i: int, j: int|
        0 <= i < n && 0 <= j < n && i != j && positive_glyph(gs[i]) && positive_glyph(
        gs[j],
    ) implies padded_disjoint((#[trigger] entries[i]).rect, (#[trigger] entries[j]).rect, p) by {
        lemma_placed_rects_index(entries, gs, n, i);
        lemma_placed_rects_index(entries, gs, n, j);
        if i < j {
            lemma_pos_count_mono(gs, i, j);
        } else {
            lemma_pos_count_mono(gs, j, i);
        }
        assert(tiles[base + pos_count(gs, i)] == entries[i].rect);
        assert(tiles[base + pos_count(gs, j)] == entries[j].rect);
        assert(padded_disjoint(
            tiles[base + pos_count(gs, i)],
            tiles[base + pos_count(gs, j)],
            p,
        ));
    }
    assert forall|i: int, t: int|
        0 <= i < n && positive_glyph(gs[i]) && 0 <= t < old_tiles.len() implies padded_disjoint(
        (#[trigger] entries[i]).rect,
        #[trigger] old_tiles[t],
        p,
    ) by {
        lemma_placed_rects_index(entries, gs, n, i);
        assert(tiles[base + pos_count(gs, i)] == entries[i].rect);
        assert(tiles[t] == old_tiles[t]);
        assert(padded_disjoint(tiles[base + pos_count(gs, i)], tiles[t], p));
    }
}

/// `placed_rects` reads only the first `n` entries, so any extension of the
/// entry sequence leaves it unchanged.
proof fn lemma_placed_rects_prefix(
    e1: Seq<CharEntry>,
    e2: Seq<CharEntry>,
    gs: Seq<GlyphBitmap>,
    n: int,
)
    requires
        forall|k: int| 0 <= k < n ==> #[trigger] e1[k] == e2[k],
    ensures
        placed_rects(e1, gs, n) == placed_rects(e2, gs, n),
    decreases n,
{
    if n > 0 {
        lemma_placed_rects_prefix(e1, e2, gs, n - 1);
    }
}

/// Whether the glyphs from index `k` on, taken in order, can all be placed
/// starting from the free list `fr`: a zero-area glyph costs nothing, and
/// every other glyph needs a best fitting free region, whose guillotine
/// split the next glyph then starts from. This is the exact condition under
/// which a font addition succeeds.
pub open spec fn glyphs_fit(fr: Seq<Recti>, gs: Seq<GlyphBitmap>, k: int, p: int) -> bool
    decreases gs.len() - k,
{
    if k < 0 || k >= gs.len() {
        true
    } else if gs[k].width == 0 || gs[k].height == 0 {
        glyphs_fit(fr, gs, k + 1, p)
    } else {
        exists|b: int|
            #[trigger] is_best_choice(fr, b, gs[k].width as int, gs[k].height as int, p)
                && glyphs_fit(
                split_free(
                    fr,
                    b,
                    fr[b],
                    (Recti { x: fr[b].x, y: fr[b].y, width: gs[k].width, height: gs[k].height }),
                    p,
                ),
                gs,
                k + 1,
                p,
            )
    }
}

/// A bitmap already blitted into `rj` survives a further blit whose writes
/// stay inside a rectangle separated from `rj`.
proof fn lemma_blit_preserved(
    prev: Seq<u8>,
    now: Seq<u8>,
    cw: int,
    ch: int,
    rj: Recti,
    bj: Seq<u8>,
    rnew: Recti,
)
    requires
        blitted(prev, cw, rj, bj),
        same_outside(prev, now, cw, ch, rnew),
        padded_disjoint(rj, rnew, 1),
        tile_in_canvas(rj, cw, ch, 1),
    ensures
        blitted(now, cw, rj, bj),
{
    assert forall|x: int, y: int| in_rect(rj, x, y) implies #[trigger] pix_at(now, cw, x, y)
        == bj[(y - rj.y) * rj.width + (x - rj.x)] by {
        assert(!in_rect(rnew, x, y));
        assert(pix_at(now, cw, x, y) == pix_at(prev, cw, x, y));
        assert(pix_at(prev, cw, x, y) == bj[(y - rj.y) * rj.width + (x - rj.x)]);
    }
}

/// Appending a matching entry, while the tile sequence only grows, keeps the
/// entries matching.
proof fn lemma_entries_match_extend(
    entries: Seq<CharEntry>,
    glyphs: Seq<GlyphBitmap>,
    tb: Seq<Recti>,
    tn: Seq<Recti>,
    i: int,
)
    requires
        0 <= i < glyphs.len(),
        entries.len() == i + 1,
        entries_match(entries.drop_last(), glyphs.subrange(0, i), tb),
        tb.len() <= tn.len(),
        tn.subrange(0, tb.len() as int) == tb,
        ({
            let e = entries.last();
            let g = glyphs[i];
            &&& e.offset == (Vec2i { x: g.xmin, y: g.ymin })
            &&& e.advance == (Vec2i { x: g.advance_x, y: g.advance_y })
            &&& (g.width > 0 && g.height > 0 ==> e.rect.width == g.width && e.rect.height
                == g.height && tn.contains(e.rect))
            &&& ((g.width == 0 || g.height == 0) ==> e.rect == Recti::zero())
        }),
    ensures
        entries_match(entries, glyphs.subrange(0, i + 1), tn),
{
    let gs = glyphs.subrange(0, i + 1);
    assert forall|j: int| 0 <= j < entries.len() implies {
        let e = #[trigger] entries[j];
        let g = gs[j];
        &&& e.offset == (Vec2i { x: g.xmin, y: g.ymin })
        &&& e.advance == (Vec2i { x: g.advance_x, y: g.advance_y })
        &&& (g.width > 0 && g.height > 0 ==> e.rect.width == g.width && e.rect.height == g.height
            && tn.contains(e.rect))
        &&& ((g.width == 0 || g.height == 0) ==> e.rect == Recti::zero())
    } by {
        if j < i {
            assert(entries.drop_last()[j] == entries[j]);
            assert(glyphs.subrange(0, i)[j] == gs[j]);
            let g = gs[j];
            let e = entries[j];
            if g.width > 0 && g.height > 0 {
                let k = choose|k: int| 0 <= k < tb.len() && tb[k] == e.rect;
                assert(tn.subrange(0, tb.len() as int)[k] == tb[k]);
                assert(tn[k] == e.rect);
            }
        } else {
            assert(entries[j] == entries.last());
            assert(gs[j] == glyphs[i]);
        }
    }
}

/// A byte-for-byte copy of a pixel buffer, used to roll a failed compound
/// operation back.
#[verifier::loop_isolation(false)]
fn copy_bytes(v: &Vec<u8>) -> (r: Vec<u8>)
    ensures
        r@ == v@,
{
    let mut r: Vec<u8> = Vec::new();
    let mut i: usize = 0;
    while i < v.len()
        invariant
            i <= v@.len(),
            r@ == v@.subrange(0, i as int),
        decreases v@.len() - i,
    {
        r.push(v[i]);
        proof {
            assert(r@ =~= v@.subrange(0, i + 1));
        }
        i += 1;
    }
    proof {
        assert(r@ =~= v@);
    }
    r
}

/// The atlas under construction: fixed canvas dimensions, the single-channel
/// pixel buffer, the recorded entries in insertion order, and the live packer
/// state used during construction.
///
/// An atlas is built by adding one asset at a time; each addition either
/// fully succeeds or leaves the atlas unchanged. Once it has been exported
/// it should be treated as read-only: exports are deterministic and do not
/// change the atlas, but nothing stops a caller from adding more afterwards,
/// so mixing the two is a usage error rather than an enforced one.
pub struct Atlas {
    pub width: usize,
    pub height: usize,
    /// Row-major, one byte per pixel, `width * height` bytes.
    pub pixels: Vec<u8>,
    pub fonts: Vec<(String, Font)>,
    pub icons: Vec<(String, Icon)>,
    /// The live free-space state used while building; of no interest once
    /// the atlas is finished.
    pub packer: RectPacker,
}

impl Atlas {
    /// The nonzero-area tiles granted so far, in grant order.
    pub closed spec fn tiles(&self) -> Seq<Recti> {
        self.packer.tiles()
    }

    /// The packer's current free regions.
    pub closed spec fn free_rects(&self) -> Seq<Recti> {
        self.packer.free_rects()
    }

    /// The atlas invariant: the canvas, the packer and the recorded entries
    /// are consistent. The inter-tile and border padding is fixed at one
    /// pixel.
    pub closed spec fn wf(&self) -> bool {
        &&& self.packer.wf()
        &&& self.packer.canvas_width() == self.width
        &&& self.packer.canvas_height() == self.height
        &&& self.packer.pad() == 1
        &&& self.pixels@.len() == self.width * self.height
        &&& self.width * self.height <= usize::MAX
        &&& forall|i: int|
            0 <= i < self.fonts@.len() ==> (#[trigger] self.fonts@[i].1).entries@.len() == 95
    }

    /// What well-formedness guarantees publicly: the buffer covers the
    /// canvas, all granted tiles are separated by one pixel of padding, and
    /// every recorded font has exactly 95 entries.
    pub proof fn lemma_wf(&self)
        requires
            self.wf(),
        ensures
            self.pixels@.len() == self.width * self.height,
            self.width * self.height <= usize::MAX,
            tiles_separated(self.tiles(), self.width as int, self.height as int, 1),
            forall|i: int|
                0 <= i < self.fonts@.len() ==> (#[trigger] self.fonts@[i].1).entries@.len() == 95,
    {
        self.packer.lemma_tiles_separated();
    }

    /// An empty atlas over a `width` by `height` canvas: all pixels are the
    /// background value 0, no entries, the whole canvas free.
    pub fn new(width: usize, height: usize) -> (a: Atlas)
        requires
            width * height <= usize::MAX,
        ensures
            a.wf(),
            a.width == width,
            a.height == height,
            a.pixels@.len() == width * height,
            forall|i: int| 0 <= i < a.pixels@.len() ==> a.pixels@[i] == 0,
            a.fonts@.len() == 0,
            a.icons@.len() == 0,
            a.tiles().len() == 0,
            a.free_rects() == crate::packer::initial_free(width as int, height as int, 1),
    {
        let total = width * height;
        let mut pixels: Vec<u8> = Vec::new();
        while pixels.len() < total
            invariant
                pixels@.len() <= total,
                forall|i: int| 0 <= i < pixels@.len() ==> pixels@[i] == 0,
            decreases total - pixels.len(),
        {
            pixels.push(0);
        }
        Atlas {
            width,
            height,
            pixels,
            fonts: Vec::new(),
            icons: Vec::new(),
            packer: RectPacker::new(width, height, 1),
        }
    }

    /// Ask the packer for a `width` by `height` rectangle and copy
    /// `pixels` (row-major, one byte per pixel) into it.
    ///
    /// A zero-area tile succeeds with the degenerate rectangle and touches
    /// nothing. When no free region can host a nonzero tile, the call fails
    /// with `AtlasOverflow` carrying the canvas dimensions, and the atlas is
    /// left entirely unchanged. On success the source bitmap sits in the
    /// returned rectangle and no pixel outside it changed.
    #[verifier::loop_isolation(false)]
    pub fn place_tile(&mut self, width: usize, height: usize, pixels: &[u8]) -> (res: Result<
        Recti,
        AtlasError,
    >)
        requires
            old(self).wf(),
            pixels@.len() == width * height,
        ensures
            final(self).wf(),
            final(self).width == old(self).width,
            final(self).height == old(self).height,
            final(self).fonts@ == old(self).fonts@,
            final(self).icons@ == old(self).icons@,
            res is Err <==> (width > 0 && height > 0 && no_fit(
                old(self).free_rects(),
                width as int,
                height as int,
                1,
            )),
            match res {
                Ok(r) => {
                    if width == 0 || height == 0 {
                        r == Recti::zero() && *final(self) == *old(self)
                    } else {
                        &&& r.width == width
                        &&& r.height == height
                        &&& final(self).tiles() == old(self).tiles().push(r)
                        &&& chosen_best(
                            old(self).free_rects(),
                            final(self).free_rects(),
                            r,
                            width as int,
                            height as int,
                            1,
                        )
                        &&& final(self).pixels@.len() == old(self).pixels@.len()
                        &&& blitted(final(self).pixels@, old(self).width as int, r, pixels@)
                        &&& same_outside(
                            old(self).pixels@,
                            final(self).pixels@,
                            old(self).width as int,
                            old(self).height as int,
                            r,
                        )
                    }
                },
                Err(e) => {
                    &&& e == (AtlasError::AtlasOverflow {
                        width: old(self).width,
                        height: old(self).height,
                    })
                    &&& *final(self) == *old(self)
                },
            },
    {
        let rect = self.packer.allocate(width, height);
        match rect {
            None => {
                Err(AtlasError::AtlasOverflow { width: self.width, height: self.height })
            },
            Some(r) => {
                if width == 0 || height == 0 {
                    return Ok(r);
                }
                let ghost s0 = *self;
                let ghost pix0 = self.pixels@;
                let ghost cw = self.width as int;
                let ghost ch = self.height as int;
                proof {
                    self.packer.lemma_tiles_separated();
                    assert(self.tiles().last() == r);
                    assert(crate::geom::tile_in_canvas(r, cw, ch, 1));
                    assert(cw * ch <= usize::MAX);
                    assert(pix0.len() == cw * ch);
                    assert(width * height <= cw * ch) by (nonlinear_arith)
                        requires
                            0 <= width <= cw,
                            0 <= height <= ch,
                    ;
                }
                let mut y: usize = 0;
                while y < height
                    invariant
                        y <= height,
                        self.width == s0.width,
                        self.height == s0.height,
                        self.fonts@ == s0.fonts@,
                        self.icons@ == s0.icons@,
                        self.packer == s0.packer,
                        self.pixels@.len() == pix0.len(),
                        forall|xx: int, yy: int|
                            in_rect(r, xx, yy) && yy < r.y + y ==> #[trigger] pix_at(
                                self.pixels@,
                                cw,
                                xx,
                                yy,
                            ) == pixels@[(yy - r.y) * width + (xx - r.x)],
                        forall|xx: int, yy: int|
                            0 <= xx < cw && 0 <= yy < ch && !in_rect(r, xx, yy)
                                ==> #[trigger] pix_at(self.pixels@, cw, xx, yy) == pix_at(
                                pix0,
                                cw,
                                xx,
                                yy,
                            ),
                    decreases height - y,
                {
                    let mut x: usize = 0;
                    while x < width
                        invariant
                            x <= width,
                            y < height,
                            self.width == s0.width,
                            self.height == s0.height,
                            self.fonts@ == s0.fonts@,
                            self.icons@ == s0.icons@,
                            self.packer == s0.packer,
                            self.pixels@.len() == pix0.len(),
                            forall|xx: int, yy: int|
                                in_rect(r, xx, yy) && yy < r.y + y ==> #[trigger] pix_at(
                                    self.pixels@,
                                    cw,
                                    xx,
                                    yy,
                                ) == pixels@[(yy - r.y) * width + (xx - r.x)],
                            forall|xx: int|
                                r.x <= xx < r.x + x ==> #[trigger] pix_at(
                                    self.pixels@,
                                    cw,
                                    xx,
                                    r.y + y,
                                ) == pixels@[(y as int) * width + (xx - r.x)],
                            forall|xx: int, yy: int|
                                0 <= xx < cw && 0 <= yy < ch && !in_rect(r, xx, yy)
                                    ==> #[trigger] pix_at(self.pixels@, cw, xx, yy) == pix_at(
                                    pix0,
                                    cw,
                                    xx,
                                    yy,
                                ),
                        decreases width - x,
                    {
                        proof {
                            lemma_row_major_in_range(cw, ch, r.x + x, r.y + y);
                            lemma_row_major_in_range(width as int, height as int, x as int, y as int);
                        }
                        let idx = (r.y + y) * self.width + (r.x + x);
                        let v = pixels[x + y * width];
                        let ghost before = self.pixels@;
                        self.pixels.set(idx, v);
                        proof {
                            assert forall|xx: int, yy: int|
                                in_rect(r, xx, yy) && yy < r.y + y implies #[trigger] pix_at(
                                self.pixels@,
                                cw,
                                xx,
                                yy,
                            ) == pixels@[(yy - r.y) * width + (xx - r.x)] by {
                                lemma_row_major_in_range(cw, ch, xx, yy);
                                lemma_row_major_injective(cw, xx, yy, r.x + x, r.y + y);
                                assert(pix_at(before, cw, xx, yy) == pixels@[(yy - r.y) * width + (
                                xx - r.x)]);
                            }
                            assert forall|xx: int|
                                r.x <= xx < r.x + x + 1 implies #[trigger] pix_at(
                                self.pixels@,
                                cw,
                                xx,
                                r.y + y,
                            ) == pixels@[(y as int) * width + (xx - r.x)] by {
                                lemma_row_major_in_range(cw, ch, xx, r.y + y);
                                if xx < r.x + x {
                                    lemma_row_major_injective(cw, xx, r.y + y, r.x + x, r.y + y);
                                    assert(pix_at(before, cw, xx, r.y + y) == pixels@[(y as int)
                                        * width + (xx - r.x)]);
                                } else {
                                    assert(pix_at(self.pixels@, cw, xx, r.y + y) == v);
                                }
                            }
                            assert forall|xx: int, yy: int|
                                0 <= xx < cw && 0 <= yy < ch && !in_rect(r, xx, yy)
                                    implies #[trigger] pix_at(self.pixels@, cw, xx, yy) == pix_at(
                                pix0,
                                cw,
                                xx,
                                yy,
                            ) by {
                                lemma_row_major_in_range(cw, ch, xx, yy);
                                lemma_row_major_injective(cw, xx, yy, r.x + x, r.y + y);
                                assert(pix_at(before, cw, xx, yy) == pix_at(pix0, cw, xx, yy));
                            }
                        }
                        x += 1;
                    }
                    proof {
                        assert forall|xx: int, yy: int|
                            in_rect(r, xx, yy) && yy < r.y + y + 1 implies #[trigger] pix_at(
                            self.pixels@,
                            cw,
                            xx,
                            yy,
                        ) == pixels@[(yy - r.y) * width + (xx - r.x)] by {
                            if yy == r.y + y {
                                assert(pix_at(self.pixels@, cw, xx, r.y + y) == pixels@[(
                                y as int) * width + (xx - r.x)]);
                            }
                        }
                    }
                    y += 1;
                }
                Ok(r)
            },
        }
    }

    /// Place a decoded icon bitmap as one tile and record it under the file
    /// stem of `path`. On failure the atlas is left unchanged.
    pub fn add_icon(&mut self, path: &str, width: usize, height: usize, pixels: &[u8]) -> (res:
        Result<(), AtlasError>)
        requires
            old(self).wf(),
            pixels@.len() == width * height,
        ensures
            final(self).wf(),
            final(self).width == old(self).width,
            final(self).height == old(self).height,
            final(self).fonts@ == old(self).fonts@,
            res is Err <==> (width > 0 && height > 0 && no_fit(
                old(self).free_rects(),
                width as int,
                height as int,
                1,
            )),
            match res {
                Ok(_) => {
                    &&& final(self).icons@.len() == old(self).icons@.len() + 1
                    &&& final(self).icons@.drop_last() == old(self).icons@
                    &&& final(self).icons@.last().0@ == name_of(path@)
                    &&& ({
                        let r = final(self).icons@.last().1.rect;
                        if width == 0 || height == 0 {
                            &&& r == Recti::zero()
                            &&& final(self).pixels@ == old(self).pixels@
                            &&& final(self).tiles() == old(self).tiles()
                        } else {
                            &&& r.width == width
                            &&& r.height == height
                            &&& final(self).tiles() == old(self).tiles().push(r)
                            &&& chosen_best(
                                old(self).free_rects(),
                                final(self).free_rects(),
                                r,
                                width as int,
                                height as int,
                                1,
                            )
                            &&& blitted(final(self).pixels@, old(self).width as int, r, pixels@)
                            &&& same_outside(
                                old(self).pixels@,
                                final(self).pixels@,
                                old(self).width as int,
                                old(self).height as int,
                                r,
                            )
                        }
                    })
                },
                Err(e) => {
                    &&& e == (AtlasError::AtlasOverflow {
                        width: old(self).width,
                        height: old(self).height,
                    })
                    &&& *final(self) == *old(self)
                },
            },
    {
        let name = format_path(path);
        match self.place_tile(width, height, pixels) {
            Ok(rect) => {
                self.icons.push((name, Icon { rect }));
                proof {
                    assert(self.icons@.drop_last() =~= old(self).icons@);
                }
                Ok(())
            },
            Err(e) => Err(e),
        }
    }

    /// Place the 95 glyph bitmaps as tiles, build their entries, and compute
    /// the font's line size. On failure the canvas and packer are left dirty;
    /// the caller rolls them back.
    #[verifier::loop_isolation(false)]
    fn place_glyphs(&mut self, size: usize, glyphs: &Vec<GlyphBitmap>) -> (res: Result<
        (Vec<CharEntry>, usize),
        AtlasError,
    >)
        requires
            old(self).wf(),
            glyphs@.len() == 95,
            forall|i: int|
                0 <= i < 95 ==> (#[trigger] glyphs@[i]).bitmap@.len() == glyphs@[i].width
                    * glyphs@[i].height,
            size <= i32::MAX,
            forall|i: int| 0 <= i < 95 ==> (#[trigger] glyphs@[i]).height <= i32::MAX,
            max_drop(size as int, glyphs@) - min_drop(size as int, glyphs@) <= usize::MAX,
        ensures
            final(self).wf(),
            final(self).width == old(self).width,
            final(self).height == old(self).height,
            final(self).fonts@ == old(self).fonts@,
            final(self).icons@ == old(self).icons@,
            res is Ok <==> glyphs_fit(old(self).free_rects(), glyphs@, 0, 1),
            match res {
                Ok(p) => {
                    &&& p.0@.len() == 95
                    &&& p.1 == max_drop(size as int, glyphs@) - min_drop(size as int, glyphs@)
                    &&& entries_match(p.0@, glyphs@, final(self).tiles())
                    &&& (forall|k: int|
                        0 <= k < 95 ==> (#[trigger] p.0@[k]).rect == glyph_rect(
                            old(self).free_rects(),
                            glyphs@,
                            k,
                            1,
                        ))
                    &&& final(self).free_rects() == free_after(
                        old(self).free_rects(),
                        glyphs@,
                        95,
                        1,
                    )
                    &&& final(self).tiles() == old(self).tiles() + placed_rects(p.0@, glyphs@, 95)
                    &&& final(self).pixels@.len() == old(self).pixels@.len()
                    &&& (forall|j: int|
                        0 <= j < 95 && glyphs@[j].width > 0 && glyphs@[j].height > 0 ==> blitted(
                            final(self).pixels@,
                            old(self).width as int,
                            (#[trigger] p.0@[j]).rect,
                            glyphs@[j].bitmap@,
                        ))
                    &&& (forall|x: int, y: int|
                        0 <= x < old(self).width && 0 <= y < old(self).height && !in_some_entry(
                            p.0@,
                            95,
                            x,
                            y,
                        ) ==> #[trigger] pix_at(final(self).pixels@, old(self).width as int, x, y)
                            == pix_at(old(self).pixels@, old(self).width as int, x, y))
                },
                Err(e) => e == (AtlasError::AtlasOverflow {
                    width: old(self).width,
                    height: old(self).height,
                }),
            },
    {
        let mut entries: Vec<CharEntry> = Vec::new();
        let mut mn: i64 = 0;
        let mut mx: i64 = 0;
        let ghost tiles0 = self.tiles();
        let ghost pix0 = self.pixels@;
        let ghost cw = self.width as int;
        let ghost ch = self.height as int;
        let mut i: usize = 0;
        while i < 95
            invariant
                i <= 95,
                self.wf(),
                self.width == old(self).width,
                self.height == old(self).height,
                self.fonts@ == old(self).fonts@,
                self.icons@ == old(self).icons@,
                entries@.len() == i,
                entries_match(entries@, glyphs@.subrange(0, i as int), self.tiles()),
                tiles0.len() <= self.tiles().len(),
                self.tiles().subrange(0, tiles0.len() as int) == tiles0,
                self.pixels@.len() == pix0.len(),
                forall|j: int|
                    0 <= j < i && glyphs@[j].width > 0 && glyphs@[j].height > 0 ==> blitted(
                        self.pixels@,
                        cw,
                        (#[trigger] entries@[j]).rect,
                        glyphs@[j].bitmap@,
                    ),
                forall|x: int, y: int|
                    0 <= x < cw && 0 <= y < ch && !in_some_entry(entries@, i as int, x, y)
                        ==> #[trigger] pix_at(self.pixels@, cw, x, y) == pix_at(pix0, cw, x, y),
                glyphs_fit(old(self).free_rects(), glyphs@, 0, 1) <==> glyphs_fit(
                    self.free_rects(),
                    glyphs@,
                    i as int,
                    1,
                ),
                self.free_rects() == free_after(old(self).free_rects(), glyphs@, i as int, 1),
                self.tiles() == tiles0 + placed_rects(entries@, glyphs@, i as int),
                forall|k: int|
                    0 <= k < i ==> (#[trigger] entries@[k]).rect == glyph_rect(
                        old(self).free_rects(),
                        glyphs@,
                        k,
                        1,
                    ),
                i > 0 ==> mn == min_drop(size as int, glyphs@.subrange(0, i as int)) && mx
                    == max_drop(size as int, glyphs@.subrange(0, i as int)) && -0x1_0000_0000 <= mn
                    <= mx <= 0x1_0000_0000,
            decreases 95 - i,
        {
            let g = &glyphs[i];
            let ghost tiles_before = self.tiles();
            let ghost pix_before = self.pixels@;
            let ghost pk_before = self.packer;
            let ghost fr_before = self.free_rects();
            match self.place_tile(g.width, g.height, g.bitmap.as_slice()) {
                Ok(rect) => {
                    let ghost entries_before = entries@;
                    entries.push(
                        CharEntry {
                            offset: Vec2i { x: g.xmin, y: g.ymin },
                            advance: Vec2i { x: g.advance_x, y: g.advance_y },
                            rect,
                        },
                    );
                    let d: i64 = size as i64 - g.ymin as i64 - g.height as i64;
                    if i == 0 {
                        mn = d;
                        mx = d;
                    } else {
                        if d < mn {
                            mn = d;
                        }
                        if d > mx {
                            mx = d;
                        }
                    }
                    proof {
                        let wg = glyphs@[i as int].width as int;
                        let hg = glyphs@[i as int].height as int;
                        let ofr = old(self).free_rects();
                        if glyphs@[i as int].width == 0 || glyphs@[i as int].height == 0 {
                            assert(self.free_rects() == fr_before);
                            assert(glyphs_fit(fr_before, glyphs@, i as int, 1) == glyphs_fit(
                                self.free_rects(),
                                glyphs@,
                                i + 1,
                                1,
                            ));
                            assert(free_after(ofr, glyphs@, i + 1, 1) == self.free_rects());
                            assert(glyph_rect(ofr, glyphs@, i as int, 1) == rect);
                        } else {
                            let i0 = choose|b: int|
                                #[trigger] is_best_choice(fr_before, b, wg, hg, 1) && rect.x
                                    == fr_before[b].x && rect.y == fr_before[b].y
                                    && self.free_rects() == split_free(
                                    fr_before,
                                    b,
                                    fr_before[b],
                                    rect,
                                    1,
                                );
                            assert(is_best_choice(fr_before, i0, wg, hg, 1));
                            assert((Recti {
                                x: fr_before[i0].x,
                                y: fr_before[i0].y,
                                width: glyphs@[i as int].width,
                                height: glyphs@[i as int].height,
                            }) == rect);
                            assert(free_after(ofr, glyphs@, i as int, 1) == fr_before);
                            let bb = best_of(fr_before, wg, hg, 1);
                            assert(exists|b: int| is_best_choice(fr_before, b, wg, hg, 1));
                            assert(is_best_choice(fr_before, bb, wg, hg, 1));
                            pk_before.lemma_best_unique(wg, hg, 1, bb, i0);
                            assert(tile_at(fr_before, bb, glyphs@[i as int]) == rect);
                            assert(free_after(ofr, glyphs@, i + 1, 1) == self.free_rects());
                            assert(glyph_rect(ofr, glyphs@, i as int, 1) == rect);
                            assert(glyphs_fit(fr_before, glyphs@, i as int, 1) == glyphs_fit(
                                self.free_rects(),
                                glyphs@,
                                i + 1,
                                1,
                            )) by {
                                if glyphs_fit(fr_before, glyphs@, i as int, 1) {
                                    let b = choose|b: int|
                                        #[trigger] is_best_choice(fr_before, b, wg, hg, 1)
                                            && glyphs_fit(
                                            split_free(
                                                fr_before,
                                                b,
                                                fr_before[b],
                                                (Recti {
                                                    x: fr_before[b].x,
                                                    y: fr_before[b].y,
                                                    width: glyphs@[i as int].width,
                                                    height: glyphs@[i as int].height,
                                                }),
                                                1,
                                            ),
                                            glyphs@,
                                            i + 1,
                                            1,
                                        );
                                    pk_before.lemma_best_unique(wg, hg, 1, b, i0);
                                    assert(glyphs_fit(self.free_rects(), glyphs@, i + 1, 1));
                                }
                                if glyphs_fit(self.free_rects(), glyphs@, i + 1, 1) {
                                    assert(is_best_choice(fr_before, i0, wg, hg, 1) && glyphs_fit(
                                        split_free(
                                            fr_before,
                                            i0,
                                            fr_before[i0],
                                            (Recti {
                                                x: fr_before[i0].x,
                                                y: fr_before[i0].y,
                                                width: glyphs@[i as int].width,
                                                height: glyphs@[i as int].height,
                                            }),
                                            1,
                                        ),
                                        glyphs@,
                                        i + 1,
                                        1,
                                    ));
                                    assert(glyphs_fit(fr_before, glyphs@, i as int, 1));
                                }
                            }
                        }
                        let pre = glyphs@.subrange(0, i as int);
                        let cur = glyphs@.subrange(0, i + 1);
                        assert(cur.drop_last() =~= pre);
                        assert(cur.last() == glyphs@[i as int]);
                        assert(d == drop_of(size as int, glyphs@[i as int]));
                        assert(self.tiles().subrange(0, tiles_before.len() as int)
                            =~= tiles_before);
                        assert(entries@.drop_last() =~= entries_before);
                        assert(entries@.last().rect == rect);
                        assert(forall|k: int|
                            0 <= k < i ==> #[trigger] entries_before[k] == entries@[k]);
                        lemma_placed_rects_prefix(entries_before, entries@, glyphs@, i as int);
                        assert forall|k: int|
                            0 <= k < i + 1 implies (#[trigger] entries@[k]).rect == glyph_rect(
                            ofr,
                            glyphs@,
                            k,
                            1,
                        ) by {
                            if k < i {
                                assert(entries@[k] == entries_before[k]);
                            } else {
                                assert(entries@[k].rect == rect);
                            }
                        }
                        if glyphs@[i as int].width > 0 && glyphs@[i as int].height > 0 {
                            assert(self.tiles() == tiles_before.push(rect));
                            assert(self.tiles()[self.tiles().len() - 1] == rect);
                            assert(self.tiles().contains(rect));
                            assert(placed_rects(entries@, glyphs@, i + 1) == placed_rects(
                                entries@,
                                glyphs@,
                                i as int,
                            ).push(rect));
                            assert((tiles0 + placed_rects(entries@, glyphs@, i as int)).push(rect)
                                =~= tiles0 + placed_rects(entries@, glyphs@, i as int).push(rect));
                            assert(self.tiles() == tiles0 + placed_rects(
                                entries@,
                                glyphs@,
                                i + 1,
                            ));
                            self.packer.lemma_tiles_separated();
                            assert forall|j: int|
                                0 <= j < i + 1 && glyphs@[j].width > 0 && glyphs@[j].height
                                    > 0 implies blitted(
                                self.pixels@,
                                cw,
                                (#[trigger] entries@[j]).rect,
                                glyphs@[j].bitmap@,
                            ) by {
                                if j < i {
                                    let e = entries_before[j];
                                    assert(entries@[j] == e);
                                    assert(glyphs@.subrange(0, i as int)[j] == glyphs@[j]);
                                    assert(tiles_before.contains(e.rect));
                                    let k = choose|k: int|
                                        0 <= k < tiles_before.len() && tiles_before[k] == e.rect;
                                    assert(self.tiles()[k] == e.rect);
                                    assert(padded_disjoint(e.rect, rect, 1));
                                    assert(tile_in_canvas(e.rect, cw, ch, 1));
                                    lemma_blit_preserved(
                                        pix_before,
                                        self.pixels@,
                                        cw,
                                        ch,
                                        e.rect,
                                        glyphs@[j].bitmap@,
                                        rect,
                                    );
                                }
                            }
                            assert forall|x: int, y: int|
                                0 <= x < cw && 0 <= y < ch && !in_some_entry(
                                    entries@,
                                    i + 1,
                                    x,
                                    y,
                                ) implies #[trigger] pix_at(self.pixels@, cw, x, y) == pix_at(
                                pix0,
                                cw,
                                x,
                                y,
                            ) by {
                                assert(!in_rect(rect, x, y)) by {
                                    if in_rect(rect, x, y) {
                                        assert(in_rect((entries@[i as int]).rect, x, y));
                                        assert(in_some_entry(entries@, i + 1, x, y));
                                    }
                                }
                                assert(pix_at(self.pixels@, cw, x, y) == pix_at(
                                    pix_before,
                                    cw,
                                    x,
                                    y,
                                ));
                                assert(!in_some_entry(entries_before, i as int, x, y)) by {
                                    if in_some_entry(entries_before, i as int, x, y) {
                                        let j = choose|j: int|
                                            0 <= j < i && in_rect(
                                                (#[trigger] entries_before[j]).rect,
                                                x,
                                                y,
                                            );
                                        assert(entries@[j] == entries_before[j]);
                                        assert(in_rect((entries@[j]).rect, x, y));
                                        assert(in_some_entry(entries@, i + 1, x, y));
                                    }
                                }
                            }
                        } else {
                            assert(placed_rects(entries@, glyphs@, i + 1) == placed_rects(
                                entries@,
                                glyphs@,
                                i as int,
                            ));
                            assert(self.tiles() == tiles0 + placed_rects(
                                entries@,
                                glyphs@,
                                i + 1,
                            ));
                            assert(self.pixels@ == pix_before);
                            assert forall|j: int|
                                0 <= j < i + 1 && glyphs@[j].width > 0 && glyphs@[j].height
                                    > 0 implies blitted(
                                self.pixels@,
                                cw,
                                (#[trigger] entries@[j]).rect,
                                glyphs@[j].bitmap@,
                            ) by {
                                assert(j < i);
                                assert(entries@[j] == entries_before[j]);
                                assert(blitted(
                                    self.pixels@,
                                    cw,
                                    (entries_before[j]).rect,
                                    glyphs@[j].bitmap@,
                                ));
                            }
                            assert forall|x: int, y: int|
                                0 <= x < cw && 0 <= y < ch && !in_some_entry(
                                    entries@,
                                    i + 1,
                                    x,
                                    y,
                                ) implies #[trigger] pix_at(self.pixels@, cw, x, y) == pix_at(
                                pix0,
                                cw,
                                x,
                                y,
                            ) by {
                                assert(!in_some_entry(entries_before, i as int, x, y)) by {
                                    if in_some_entry(entries_before, i as int, x, y) {
                                        let j = choose|j: int|
                                            0 <= j < i && in_rect(
                                                (#[trigger] entries_before[j]).rect,
                                                x,
                                                y,
                                            );
                                        assert(entries@[j] == entries_before[j]);
                                        assert(in_rect((entries@[j]).rect, x, y));
                                        assert(in_some_entry(entries@, i + 1, x, y));
                                    }
                                }
                            }
                        }
                        lemma_entries_match_extend(
                            entries@,
                            glyphs@,
                            tiles_before,
                            self.tiles(),
                            i as int,
                        );
                        assert(self.tiles().subrange(0, tiles0.len() as int) =~= tiles0);
                    }
                },
                Err(e) => {
                    proof {
                        let wg = glyphs@[i as int].width as int;
                        let hg = glyphs@[i as int].height as int;
                        assert(!glyphs_fit(fr_before, glyphs@, i as int, 1)) by {
                            if glyphs_fit(fr_before, glyphs@, i as int, 1) {
                                let b = choose|b: int|
                                    #[trigger] is_best_choice(fr_before, b, wg, hg, 1)
                                        && glyphs_fit(
                                        split_free(
                                            fr_before,
                                            b,
                                            fr_before[b],
                                            (Recti {
                                                x: fr_before[b].x,
                                                y: fr_before[b].y,
                                                width: glyphs@[i as int].width,
                                                height: glyphs@[i as int].height,
                                            }),
                                            1,
                                        ),
                                        glyphs@,
                                        i + 1,
                                        1,
                                    );
                                assert(crate::packer::fits(fr_before[b], wg, hg, 1));
                            }
                        }
                    }
                    return Err(e);
                },
            }
            i += 1;
        }
        proof {
            assert(glyphs@.subrange(0, 95) =~= glyphs@);
            assert(glyphs_fit(self.free_rects(), glyphs@, 95, 1));
        }
        let line = mx - mn;
        let line_size = line as usize;
        Ok((entries, line_size))
    }

    /// Rasterized glyphs for the printable codes 32 through 126, in
    /// ascending code order (`glyphs[i]` belongs to code `32 + i`), are
    /// placed as tiles and recorded as one font under the file stem of
    /// `path`. The font's line size is the span between the greatest and the
    /// least glyph drop. On failure nothing is recorded and the canvas and
    /// packer are rolled back: the atlas is unchanged.
    pub fn add_font(&mut self, path: &str, size: usize, glyphs: &Vec<GlyphBitmap>) -> (res: Result<
        (),
        AtlasError,
    >)
        requires
            old(self).wf(),
            glyphs@.len() == 95,
            forall|i: int|
                0 <= i < 95 ==> (#[trigger] glyphs@[i]).bitmap@.len() == glyphs@[i].width
                    * glyphs@[i].height,
            size <= i32::MAX,
            forall|i: int| 0 <= i < 95 ==> (#[trigger] glyphs@[i]).height <= i32::MAX,
            max_drop(size as int, glyphs@) - min_drop(size as int, glyphs@) <= usize::MAX,
        ensures
            final(self).wf(),
            final(self).width == old(self).width,
            final(self).height == old(self).height,
            final(self).icons@ == old(self).icons@,
            res is Ok <==> glyphs_fit(old(self).free_rects(), glyphs@, 0, 1),
            match res {
                Ok(_) => {
                    &&& final(self).fonts@.len() == old(self).fonts@.len() + 1
                    &&& final(self).fonts@.drop_last() == old(self).fonts@
                    &&& final(self).fonts@.last().0@ == name_of(path@)
                    &&& final(self).fonts@.last().1.font_size == size
                    &&& final(self).fonts@.last().1.entries@.len() == 95
                    &&& final(self).fonts@.last().1.line_size == max_drop(size as int, glyphs@)
                        - min_drop(size as int, glyphs@)
                    &&& entries_match(
                        final(self).fonts@.last().1.entries@,
                        glyphs@,
                        final(self).tiles(),
                    )
                    &&& (forall|k: int|
                        0 <= k < 95 ==> (#[trigger] final(self).fonts@.last().1.entries@[k]).rect
                            == glyph_rect(old(self).free_rects(), glyphs@, k, 1))
                    &&& final(self).free_rects() == free_after(
                        old(self).free_rects(),
                        glyphs@,
                        95,
                        1,
                    )
                    &&& final(self).tiles() == old(self).tiles() + placed_rects(
                        final(self).fonts@.last().1.entries@,
                        glyphs@,
                        95,
                    )
                    &&& final(self).pixels@.len() == old(self).pixels@.len()
                    &&& (forall|i: int|
                        0 <= i < 95 && glyphs@[i].width > 0 && glyphs@[i].height > 0 ==> blitted(
                            final(self).pixels@,
                            old(self).width as int,
                            (#[trigger] final(self).fonts@.last().1.entries@[i]).rect,
                            glyphs@[i].bitmap@,
                        ))
                    &&& (forall|x: int, y: int|
                        0 <= x < old(self).width && 0 <= y < old(self).height && !in_some_entry(
                            final(self).fonts@.last().1.entries@,
                            95,
                            x,
                            y,
                        ) ==> #[trigger] pix_at(final(self).pixels@, old(self).width as int, x, y)
                            == pix_at(old(self).pixels@, old(self).width as int, x, y))
                },
                Err(e) => {
                    &&& e == (AtlasError::AtlasOverflow {
                        width: old(self).width,
                        height: old(self).height,
                    })
                    &&& final(self).pixels@ == old(self).pixels@
                    &&& final(self).fonts@ == old(self).fonts@
                    &&& final(self).tiles() == old(self).tiles()
                    &&& final(self).free_rects() == old(self).free_rects()
                },
            },
    {
        let name = format_path(path);
        let saved_pixels = copy_bytes(&self.pixels);
        let saved_packer = self.packer.snapshot();
        match self.place_glyphs(size, glyphs) {
            Ok((entries, line_size)) => {
                let ghost entry_seq = entries@;
                self.fonts.push((name, Font { line_size, font_size: size, entries }));
                proof {
                    assert(self.fonts@.drop_last() =~= old(self).fonts@);
                    assert(self.fonts@.last().1.entries@ == entry_seq);
                    assert(placed_rects(entry_seq, glyphs@, 95) == placed_rects(
                        self.fonts@.last().1.entries@,
                        glyphs@,
                        95,
                    ));
                }
                Ok(())
            },
            Err(e) => {
                self.pixels = saved_pixels;
                self.packer = saved_packer;
                Err(e)
            },
        }
    }

    /// Read back the rectangular region `r` of the canvas as a row-major
    /// bitmap, one byte per pixel.
    #[verifier::loop_isolation(false)]
    pub fn read_rect(&self, r: Recti) -> (out: Vec<u8>)
        requires
            self.wf(),
            r.x + r.width <= self.width,
            r.y + r.height <= self.height,
        ensures
            out@.len() == r.width * r.height,
            forall|x: int, y: int|
                in_rect(r, x, y) ==> out@[(y - r.y) * r.width + (x - r.x)] == #[trigger] pix_at(
                    self.pixels@,
                    self.width as int,
                    x,
                    y,
                ),
    {
        let ghost cw = self.width as int;
        let mut out: Vec<u8> = Vec::new();
        let mut y: usize = 0;
        while y < r.height
            invariant
                y <= r.height,
                out@.len() == y * r.width,
                forall|xx: int, yy: int|
                    in_rect(r, xx, yy) && yy < r.y + y ==> out@[(yy - r.y) * r.width + (xx - r.x)]
                        == #[trigger] pix_at(self.pixels@, cw, xx, yy),
            decreases r.height - y,
        {
            let mut x: usize = 0;
            proof {
                lemma_mul_bounds(y as int, r.height as int, r.width as int);
            }
            while x < r.width
                invariant
                    x <= r.width,
                    y < r.height,
                    out@.len() == y * r.width + x,
                    forall|xx: int, yy: int|
                        in_rect(r, xx, yy) && yy < r.y + y ==> out@[(yy - r.y) * r.width + (xx
                            - r.x)] == #[trigger] pix_at(self.pixels@, cw, xx, yy),
                    forall|xx: int|
                        r.x <= xx < r.x + x ==> out@[(y as int) * r.width + (xx - r.x)]
                            == #[trigger] pix_at(self.pixels@, cw, xx, r.y + y),
                decreases r.width - x,
            {
                proof {
                    lemma_row_major_in_range(cw, self.height as int, r.x + x, r.y + y);
                }
                let idx = (r.y + y) * self.width + (r.x + x);
                out.push(self.pixels[idx]);
                proof {
                    assert forall|xx: int, yy: int|
                        in_rect(r, xx, yy) && yy < r.y + y implies out@[(yy - r.y) * r.width + (xx
                        - r.x)] == #[trigger] pix_at(self.pixels@, cw, xx, yy) by {
                        lemma_row_major_in_range(r.width as int, y as int, xx - r.x, yy - r.y);
                        lemma_mul_commute(r.width as int, y as int);
                    }
                }
                x += 1;
            }
            proof {
                assert forall|xx: int, yy: int|
                    in_rect(r, xx, yy) && yy < r.y + y + 1 implies out@[(yy - r.y) * r.width + (xx
                    - r.x)] == #[trigger] pix_at(self.pixels@, cw, xx, yy) by {
                    if yy == r.y + y {
                        assert(out@[(y as int) * r.width + (xx - r.x)] == pix_at(
                            self.pixels@,
                            cw,
                            xx,
                            r.y + y,
                        ));
                    }
                }
            }
            y += 1;
        }
        proof {
            assert(out@.len() == r.height * r.width);
            lemma_mul_commute(r.height as int, r.width as int);
        }
        out
    }
}

/// Blitting a bitmap into a granted rectangle and then reading that same
/// region back reproduces the bitmap exactly, byte for byte.
pub proof fn lemma_blit_roundtrip(pix: Seq<u8>, cw: int, r: Recti, src: Seq<u8>, out: Seq<u8>)
    requires
        src.len() == r.width * r.height,
        out.len() == src.len(),
        blitted(pix, cw, r, src),
        forall|x: int, y: int|
            in_rect(r, x, y) ==> out[(y - r.y) * r.width + (x - r.x)] == #[trigger] pix_at(
                pix,
                cw,
                x,
                y,
            ),
    ensures
        out == src,
{
    let w = r.width as int;
    let h = r.height as int;
    assert forall|k: int| 0 <= k < src.len() implies out[k] == src[k] by {
        assert(w > 0) by (nonlinear_arith)
            requires
                0 <= w,
                0 <= h,
                w * h > k >= 0,
        ;
        lemma_fundamental_div_mod(k, w);
        let x = k % w;
        let y = k / w;
        assert(0 <= x < w);
        assert(0 <= y < h) by (nonlinear_arith)
            requires
                k == w * y + x,
                0 <= x < w,
                0 <= k < w * h,
        ;
        assert(in_rect(r, r.x + x, r.y + y));
        assert(pix_at(pix, cw, r.x + x, r.y + y) == src[y * w + x]);
        assert(out[y * w + x] == pix_at(pix, cw, r.x + x, r.y + y));
        lemma_mul_commute(y, w);
        assert(y * w + x == k);
    }
    assert(out =~= src);
}

/// A pixel coordinate inside a `cw` by `ch` canvas has a row-major index
/// inside the buffer.
proof fn lemma_row_major_in_range(cw: int, ch: int, x: int, y: int)
    requires
        0 <= x < cw,
        0 <= y < ch,
    ensures
        0 <= y * cw + x < cw * ch,
{
    assert(0 <= y * cw + x < cw * ch) by (nonlinear_arith)
        requires
            0 <= x < cw,
            0 <= y < ch,
    ;
}

/// Row-major indexing is injective over in-row coordinates.
proof fn lemma_row_major_injective(cw: int, x1: int, y1: int, x2: int, y2: int)
    requires
        0 <= x1 < cw,
        0 <= x2 < cw,
        !(x1 == x2 && y1 == y2),
    ensures
        y1 * cw + x1 != y2 * cw + x2,
{
    assert(y1 * cw + x1 != y2 * cw + x2) by (nonlinear_arith)
        requires
            0 <= x1 < cw,
            0 <= x2 < cw,
            !(x1 == x2 && y1 == y2),
    ;
}

proof fn lemma_mul_bounds(y: int, h: int, w: int)
    requires
        0 <= y < h,
        0 <= w,
    ensures
        y * w + w <= h * w,
        (y + 1) * w == y * w + w,
    {
    assert(y * w + w <= h * w && (y + 1) * w == y * w + w) by (nonlinear_arith)
        requires
            0 <= y < h,
            0 <= w,
    ;
}

proof fn lemma_mul_commute(a: int, b: int)
    ensures
        a * b == b * a,
{
}

} // verus!
