use atlas_gen::atlas::{Atlas, GlyphBitmap};
use atlas_gen::error::AtlasError;
use atlas_gen::geom::Recti;

fn separated(a: &Recti, b: &Recti, pad: usize) -> bool {
    a.x + a.width + pad <= b.x
        || b.x + b.width + pad <= a.x
        || a.y + a.height + pad <= b.y
        || b.y + b.height + pad <= a.y
}

fn clear_of_border(r: &Recti, w: usize, h: usize, pad: usize) -> bool {
    r.x >= pad && r.y >= pad && r.x + r.width + pad <= w && r.y + r.height + pad <= h
}

fn synthetic_glyphs() -> Vec<GlyphBitmap> {
    let mut glyphs = Vec::new();
    for i in 0..95usize {
        if i == 0 {
            // the space character rasterizes to an empty bitmap
            glyphs.push(GlyphBitmap {
                width: 0,
                height: 0,
                xmin: 0,
                ymin: 0,
                advance_x: 6,
                advance_y: 0,
                bitmap: Vec::new(),
            });
        } else {
            let w = 5usize;
            let h = 5 + (i % 3);
            glyphs.push(GlyphBitmap {
                width: w,
                height: h,
                xmin: 1,
                ymin: -2,
                advance_x: 6,
                advance_y: 0,
                bitmap: vec![(i % 251) as u8 + 1; w * h],
            });
        }
    }
    glyphs
}

#[test]
fn blit_then_read_back_reproduces_the_bitmap() {
    let mut a = Atlas::new(64, 64);
    let src: Vec<u8> = vec![1, 2, 3, 4, 5, 6];
    let r = a.place_tile(3, 2, src.as_slice()).expect("fits");
    assert_eq!((r.width, r.height), (3, 2));
    let back = a.read_rect(r);
    assert_eq!(back, src);
}

#[test]
fn overflow_fails_and_leaves_the_canvas_untouched() {
    let mut a = Atlas::new(8, 8);
    let src = vec![7u8; 32 * 32];
    let before = a.pixels.clone();
    let err = a.place_tile(32, 32, src.as_slice()).unwrap_err();
    assert_eq!(err, AtlasError::AtlasOverflow { width: 8, height: 8 });
    assert_eq!(a.pixels, before);
    assert!(a.pixels.iter().all(|&p| p == 0));
}

#[test]
fn icon_too_large_for_tiny_canvas_reports_the_canvas_size() {
    let mut a = Atlas::new(8, 8);
    let src = vec![1u8; 32 * 32];
    let err = a.add_icon("icons/big.png", 32, 32, src.as_slice()).unwrap_err();
    assert_eq!(err, AtlasError::AtlasOverflow { width: 8, height: 8 });
    assert_eq!(
        err.message(),
        "Bitmap size of 8x8 is not enough to hold the atlas, please resize"
    );
    assert!(a.icons.is_empty());
}

#[test]
fn add_icon_records_stem_name_and_rect() {
    let mut a = Atlas::new(32, 32);
    let src = vec![9u8; 16];
    a.add_icon("assets/icons/save.png", 4, 4, src.as_slice()).expect("fits");
    assert_eq!(a.icons.len(), 1);
    assert_eq!(a.icons[0].0, "save");
    let r = a.icons[0].1.rect;
    assert_eq!((r.width, r.height), (4, 4));
    assert_eq!(a.read_rect(r), src);
}

#[test]
fn icon_and_font_scenario_fits_and_stays_separated() {
    let mut a = Atlas::new(256, 256);
    let icon = vec![200u8; 32 * 32];
    a.add_icon("gui/logo.png", 32, 32, icon.as_slice()).expect("icon fits");
    let glyphs = synthetic_glyphs();
    a.add_font("fonts/mono.ttf", 16, &glyphs).expect("font fits");

    assert_eq!(a.icons.len(), 1);
    assert_eq!(a.fonts.len(), 1);
    let font = &a.fonts[0].1;
    assert_eq!(a.fonts[0].0, "mono");
    assert_eq!(font.font_size, 16);
    assert_eq!(font.entries.len(), 95);

    // line_size = max drop - min drop; drops are 16 for the space glyph and
    // 18 - h, h in {5, 6, 7}, for the rest: 16 - 11 = 5.
    assert_eq!(font.line_size, 5);

    // space glyph: degenerate rect, metrics kept
    assert_eq!(font.entries[0].rect, Recti { x: 0, y: 0, width: 0, height: 0 });
    assert_eq!((font.entries[0].advance.x, font.entries[0].advance.y), (6, 0));

    // every rect in the atlas: right dimensions, border clearance, pairwise gap
    let mut rects = vec![a.icons[0].1.rect];
    for (i, e) in font.entries.iter().enumerate() {
        assert_eq!((e.offset.x, e.offset.y), if i == 0 { (0, 0) } else { (1, -2) });
        if i > 0 {
            assert_eq!((e.rect.width, e.rect.height), (5, 5 + (i % 3)));
            rects.push(e.rect);
        }
    }
    assert_eq!(rects.len(), 95);
    for i in 0..rects.len() {
        assert!(clear_of_border(&rects[i], 256, 256, 1));
        for j in 0..rects.len() {
            if i != j {
                assert!(separated(&rects[i], &rects[j], 1));
            }
        }
    }

    // the glyph bitmaps really are in the canvas
    for (i, e) in font.entries.iter().enumerate() {
        if i > 0 {
            assert_eq!(a.read_rect(e.rect), glyphs[i].bitmap);
        }
    }
}

#[test]
fn failed_font_addition_rolls_the_atlas_back() {
    let mut a = Atlas::new(40, 40);
    let icon = vec![50u8; 4 * 4];
    a.add_icon("i.png", 4, 4, icon.as_slice()).expect("fits");
    let pixels_before = a.pixels.clone();

    // 95 glyphs of 8x8 cannot fit a 40x40 canvas
    let mut glyphs = Vec::new();
    for _ in 0..95usize {
        glyphs.push(GlyphBitmap {
            width: 8,
            height: 8,
            xmin: 0,
            ymin: 0,
            advance_x: 9,
            advance_y: 0,
            bitmap: vec![255u8; 64],
        });
    }
    let err = a.add_font("f.ttf", 12, &glyphs).unwrap_err();
    assert_eq!(err, AtlasError::AtlasOverflow { width: 40, height: 40 });
    assert!(a.fonts.is_empty());
    assert_eq!(a.pixels, pixels_before);

    // the packer state was rolled back too: the next icon lands where it
    // would have without the failed attempt
    let mut b = Atlas::new(40, 40);
    b.add_icon("i.png", 4, 4, icon.as_slice()).expect("fits");
    let ra = a.place_tile(6, 6, &vec![1u8; 36]).expect("fits");
    let rb = b.place_tile(6, 6, &vec![1u8; 36]).expect("fits");
    assert_eq!(ra, rb);
}

#[test]
fn zero_sized_tile_is_free_and_placed_nowhere() {
    let mut a = Atlas::new(16, 16);
    let r = a.place_tile(0, 9, &[]).expect("zero tiles always succeed");
    assert_eq!(r, Recti { x: 0, y: 0, width: 0, height: 0 });
    assert!(a.pixels.iter().all(|&p| p == 0));
    // and it consumed nothing
    let mut b = Atlas::new(16, 16);
    assert_eq!(
        a.place_tile(10, 10, &vec![3u8; 100]).unwrap(),
        b.place_tile(10, 10, &vec![3u8; 100]).unwrap()
    );
}
