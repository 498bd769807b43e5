use atlas_gen::atlas::Atlas;
use atlas_gen::error::AtlasError;
use atlas_gen::names::format_path;
use atlas_gen::serialize::render_rust_source;

#[test]
fn format_path_takes_the_file_stem() {
    assert_eq!(format_path("assets/icons/save.png"), "save");
    assert_eq!(format_path("save.png"), "save");
    assert_eq!(format_path("save"), "save");
    assert_eq!(format_path("a/b/c/archive.tar.gz"), "archive.tar");
    assert_eq!(format_path(".hidden"), ".hidden");
    assert_eq!(format_path("dir/"), "");
}

#[test]
fn overflow_message_renders_the_dimensions() {
    let e = AtlasError::AtlasOverflow { width: 123, height: 7 };
    assert_eq!(
        e.message(),
        "Bitmap size of 123x7 is not enough to hold the atlas, please resize"
    );
    assert_eq!(AtlasError::Io.message(), "I/O error");
}

#[test]
fn rendered_source_lists_entries_tables_and_the_raw_path() {
    let mut a = Atlas::new(64, 64);
    a.add_icon("art/play.png", 2, 1, &[9, 9]).unwrap();
    a.add_icon("art/stop.png", 1, 1, &[5]).unwrap();
    let out = render_rust_source(&a, "atlas_data.rs.raw");

    assert!(out.contains("pub const play : usize = 0;\n"));
    assert!(out.contains("pub const stop : usize = 1;\n"));
    assert!(out.contains("\nconst ICONS : [(&str, Icon); 2] = [\n"));
    assert!(out.contains("\nconst FONTS : [(&str, Font); 0] = [\n"));
    // the packer grants the first two tiles deterministically: (1,1) 2x1,
    // then the best-area fit for 1x1
    assert!(out.contains("\t(\"play\", Icon { rect: Recti { x: 1, y: 1, width: 2, height: 1 } }),\n"));
    assert!(out.contains("\"stop\", Icon { rect: Recti {"));
    assert!(out.contains("\twidth: 64, height: 64,\n"));
    assert!(out.contains("\tpixels_path: \"atlas_data.rs.raw\",\n"));
    assert!(out.starts_with("\npub struct Vec2i {"));
    assert!(out.ends_with("};\n"));
}

#[test]
fn rendered_font_rows_carry_signed_bearings() {
    let mut a = Atlas::new(64, 64);
    let mut glyphs = Vec::new();
    for _ in 0..95usize {
        glyphs.push(atlas_gen::atlas::GlyphBitmap {
            width: 1,
            height: 1,
            xmin: 1,
            ymin: -2,
            advance_x: 3,
            advance_y: 0,
            bitmap: vec![7u8],
        });
    }
    a.add_font("ui/small.ttf", 10, &glyphs).unwrap();
    let out = render_rust_source(&a, "a.raw");
    assert!(out.contains("pub const small : usize = 0;\n"));
    assert!(out.contains("\t(\"small\", Font { line_size: 0, font_size: 10, entries: ["));
    assert!(out.contains("offset: Vec2i { x: 1, y: -2 }, advance: Vec2i { x: 3, y: 0 }"));
    assert!(out.contains("\nconst FONTS : [(&str, Font); 1] = [\n"));
}

#[test]
fn rendering_is_read_only_and_deterministic() {
    let mut a = Atlas::new(16, 16);
    a.add_icon("x.png", 3, 3, &[1u8; 9]).unwrap();
    let one = render_rust_source(&a, "p.raw");
    let two = render_rust_source(&a, "p.raw");
    assert_eq!(one, two);
    assert_eq!(a.icons.len(), 1);
}
