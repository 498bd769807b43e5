//! Deterministic, read-only export of a finished atlas as a Rust source
//! fragment: index constants, the icon and font tables, and an atlas record
//! that names a companion raw file holding the pixel dump. The grammar is
//! fixed by the spec functions here; the executable renderer is proved to
//! produce exactly that text.

use vstd::prelude::*;

use crate::atlas::{Atlas, CharEntry, Font, Icon};
use crate::geom::{Recti, Vec2i};

verus! {

/// The decimal digit character for `d` (0 through 9).
pub open spec fn digit_char(d: int) -> char {
    if d == 0 {
        '0'
    } else if d == 1 {
        '1'
    } else if d == 2 {
        '2'
    } else if d == 3 {
        '3'
    } else if d == 4 {
        '4'
    } else if d == 5 {
        '5'
    } else if d == 6 {
        '6'
    } else if d == 7 {
        '7'
    } else if d == 8 {
        '8'
    } else {
        '9'
    }
}

/// The decimal rendering of a non-negative integer, most significant digit
/// first, without leading zeros (a single `0` for zero).
pub open spec fn dec_nat(n: nat) -> Seq<char>
    decreases n,
{
    if n < 10 {
        seq![digit_char(n as int)]
    } else {
        dec_nat(n / 10).push(digit_char((n % 10) as int))
    }
}

/// The decimal rendering of a signed integer: a minus sign before the
/// magnitude for negative values.
pub open spec fn dec_int(n: int) -> Seq<char> {
    if n < 0 {
        seq!['-'] + dec_nat((-n) as nat)
    } else {
        dec_nat(n as nat)
    }
}

pub open spec fn render_vec2i(v: Vec2i) -> Seq<char> {
    "Vec2i { x: "@ + dec_int(v.x as int) + ", y: "@ + dec_int(v.y as int) + " }"@
}

pub open spec fn render_recti(r: Recti) -> Seq<char> {
    "Recti { x: "@ + dec_nat(r.x as nat) + ", y: "@ + dec_nat(r.y as nat) + ", width: "@ + dec_nat(
        r.width as nat,
    ) + ", height: "@ + dec_nat(r.height as nat) + " }"@
}

pub open spec fn render_char_entry(e: CharEntry) -> Seq<char> {
    "CharEntry { offset: "@ + render_vec2i(e.offset) + ", advance: "@ + render_vec2i(e.advance)
        + ", rect: "@ + render_recti(e.rect) + " }"@
}

/// The first `n` character entries, each followed by a comma and a space.
pub open spec fn render_entries(es: Seq<CharEntry>, n: int) -> Seq<char>
    decreases n,
{
    if n <= 0 {
        Seq::empty()
    } else {
        render_entries(es, n - 1) + render_char_entry(es[n - 1]) + ", "@
    }
}

/// One `pub const NAME : usize = IDX;` line.
pub open spec fn render_const(name: Seq<char>, idx: nat) -> Seq<char> {
    "pub const "@ + name + " : usize = "@ + dec_nat(idx) + ";\n"@
}

/// The index constants of the first `n` icons.
pub open spec fn render_icon_consts(icons: Seq<(String, Icon)>, n: int) -> Seq<char>
    decreases n,
{
    if n <= 0 {
        Seq::empty()
    } else {
        render_icon_consts(icons, n - 1) + render_const(icons[n - 1].0@, (n - 1) as nat)
    }
}

/// The index constants of the first `n` fonts.
pub open spec fn render_font_consts(fonts: Seq<(String, Font)>, n: int) -> Seq<char>
    decreases n,
{
    if n <= 0 {
        Seq::empty()
    } else {
        render_font_consts(fonts, n - 1) + render_const(fonts[n - 1].0@, (n - 1) as nat)
    }
}

/// One row of the `ICONS` table.
pub open spec fn render_icon_row(name: Seq<char>, icon: Icon) -> Seq<char> {
    "\t(\""@ + name + "\", Icon { rect: "@ + render_recti(icon.rect) + " }),\n"@
}

/// One row of the `FONTS` table.
pub open spec fn render_font_row(name: Seq<char>, font: Font) -> Seq<char> {
    "\t(\""@ + name + "\", Font { line_size: "@ + dec_nat(font.line_size as nat)
        + ", font_size: "@ + dec_nat(font.font_size as nat) + ", entries: ["@ + render_entries(
        font.entries@,
        font.entries@.len() as int,
    ) + "] }),\n"@
}

/// The first `n` rows of the `ICONS` table.
pub open spec fn render_icon_rows(icons: Seq<(String, Icon)>, n: int) -> Seq<char>
    decreases n,
{
    if n <= 0 {
        Seq::empty()
    } else {
        render_icon_rows(icons, n - 1) + render_icon_row(icons[n - 1].0@, icons[n - 1].1)
    }
}

/// The first `n` rows of the `FONTS` table.
pub open spec fn render_font_rows(fonts: Seq<(String, Font)>, n: int) -> Seq<char>
    decreases n,
{
    if n <= 0 {
        Seq::empty()
    } else {
        render_font_rows(fonts, n - 1) + render_font_row(fonts[n - 1].0@, fonts[n - 1].1)
    }
}

/// The fixed type declarations that open the artifact.
pub open spec fn header_chars() -> Seq<char> {
    "
pub struct Vec2i {
    pub x: i32,
    pub y: i32,
}

pub struct Recti {
    pub x: usize,
    pub y: usize,
    pub width: usize,
    pub height: usize,
}

pub struct CharEntry {
    pub offset: Vec2i,
    pub advance: Vec2i,
    pub rect: Recti,
}

pub struct Font {
    pub line_size: usize,
    pub font_size: usize,
    pub entries: [CharEntry; 95],
}

pub struct Icon {
    pub rect: Recti,
}

pub struct Atlas<'a> {
    pub width: usize,
    pub height: usize,
    pub pixels_path: &'a str,
    pub fonts: &'a [(&'a str, Font)],
    pub icons: &'a [(&'a str, Icon)],
}

"@
}

/// The whole artifact: header, index constants, both tables, and the atlas
/// record referencing `raw_name` as the companion raw pixel dump.
pub open spec fn render_atlas(a: Atlas, raw_name: Seq<char>) -> Seq<char> {
    header_chars() + render_icon_consts(a.icons@, a.icons@.len() as int) + render_font_consts(
        a.fonts@,
        a.fonts@.len() as int,
    ) + "\nconst ICONS : [(&str, Icon); "@ + dec_nat(a.icons@.len()) + "] = [\n"@
        + render_icon_rows(a.icons@, a.icons@.len() as int) + "];\n"@
        + "\nconst FONTS : [(&str, Font); "@ + dec_nat(a.fonts@.len()) + "] = [\n"@
        + render_font_rows(a.fonts@, a.fonts@.len() as int) + "];\n"@
        + "\npub const ATLAS : Atlas = Atlas {\n"@ + "\twidth: "@ + dec_nat(a.width as nat)
        + ", height: "@ + dec_nat(a.height as nat) + ",\n"@ + "\tpixels_path: \""@ + raw_name
        + "\",\n"@ + "\tfonts: &FONTS,\n"@ + "\ticons: &ICONS,\n"@ + "};\n"@
}

/// The single decimal digit `d` as a string slice.
fn digit_str(d: usize) -> (s: &'static str)
    requires
        d < 10,
    ensures
        s@ == seq![digit_char(d as int)],
{
    let s: &'static str = if d == 0 {
        "0"
    } else if d == 1 {
        "1"
    } else if d == 2 {
        "2"
    } else if d == 3 {
        "3"
    } else if d == 4 {
        "4"
    } else if d == 5 {
        "5"
    } else if d == 6 {
        "6"
    } else if d == 7 {
        "7"
    } else if d == 8 {
        "8"
    } else {
        "9"
    };
    proof {
        reveal_strlit("0");
        reveal_strlit("1");
        reveal_strlit("2");
        reveal_strlit("3");
        reveal_strlit("4");
        reveal_strlit("5");
        reveal_strlit("6");
        reveal_strlit("7");
        reveal_strlit("8");
        reveal_strlit("9");
        assert(s@ =~= seq![digit_char(d as int)]);
    }
    s
}

/// Append the decimal rendering of `n`.
pub fn push_usize(out: &mut String, n: usize)
    ensures
        final(out)@ == old(out)@ + dec_nat(n as nat),
    decreases n,
{
    if n >= 10 {
        proof {
            assert(n / 10 < n) by (nonlinear_arith)
                requires
                    n >= 10,
            ;
        }
        push_usize(out, n / 10);
    }
    let d = digit_str(n % 10);
    out.append(d);
    proof {
        assert(final(out)@ =~= old(out)@ + dec_nat(n as nat));
    }
}

/// Append the decimal rendering of the signed value `v`.
fn push_i32(out: &mut String, v: i32)
    ensures
        final(out)@ == old(out)@ + dec_int(v as int),
{
    if v < 0 {
        out.append("-");
        let m = (-(v as i64)) as usize;
        push_usize(out, m);
        proof {
            reveal_strlit("-");
            assert(final(out)@ =~= old(out)@ + dec_int(v as int));
        }
    } else {
        push_usize(out, v as usize);
    }
}

fn push_vec2i(out: &mut String, v: Vec2i)
    ensures
        final(out)@ == old(out)@ + render_vec2i(v),
{
    out.append("Vec2i { x: ");
    push_i32(out, v.x);
    out.append(", y: ");
    push_i32(out, v.y);
    out.append(" }");
    proof {
        assert(final(out)@ =~= old(out)@ + render_vec2i(v));
    }
}

fn push_recti(out: &mut String, r: Recti)
    ensures
        final(out)@ == old(out)@ + render_recti(r),
{
    out.append("Recti { x: ");
    push_usize(out, r.x);
    out.append(", y: ");
    push_usize(out, r.y);
    out.append(", width: ");
    push_usize(out, r.width);
    out.append(", height: ");
    push_usize(out, r.height);
    out.append(" }");
    proof {
        assert(final(out)@ =~= old(out)@ + render_recti(r));
    }
}

fn push_char_entry(out: &mut String, e: &CharEntry)
    ensures
        final(out)@ == old(out)@ + render_char_entry(*e),
{
    out.append("CharEntry { offset: ");
    push_vec2i(out, e.offset);
    out.append(", advance: ");
    push_vec2i(out, e.advance);
    out.append(", rect: ");
    push_recti(out, e.rect);
    out.append(" }");
    proof {
        assert(final(out)@ =~= old(out)@ + render_char_entry(*e));
    }
}

#[verifier::loop_isolation(false)]
fn push_entries(out: &mut String, es: &Vec<CharEntry>)
    ensures
        final(out)@ == old(out)@ + render_entries(es@, es@.len() as int),
{
    let mut i: usize = 0;
    while i < es.len()
        invariant
            i <= es@.len(),
            out@ == old(out)@ + render_entries(es@, i as int),
        decreases es@.len() - i,
    {
        push_char_entry(out, &es[i]);
        out.append(", ");
        proof {
            assert(out@ =~= old(out)@ + render_entries(es@, i + 1));
        }
        i += 1;
    }
}

fn push_const(out: &mut String, name: &str, idx: usize)
    ensures
        final(out)@ == old(out)@ + render_const(name@, idx as nat),
{
    out.append("pub const ");
    out.append(name);
    out.append(" : usize = ");
    push_usize(out, idx);
    out.append(";\n");
    proof {
        assert(final(out)@ =~= old(out)@ + render_const(name@, idx as nat));
    }
}

fn push_icon_row(out: &mut String, name: &str, icon: &Icon)
    ensures
        final(out)@ == old(out)@ + render_icon_row(name@, *icon),
{
    out.append("\t(\"");
    out.append(name);
    out.append("\", Icon { rect: ");
    push_recti(out, icon.rect);
    out.append(" }),\n");
    proof {
        assert(final(out)@ =~= old(out)@ + render_icon_row(name@, *icon));
    }
}

fn push_font_row(out: &mut String, name: &str, font: &Font)
    ensures
        final(out)@ == old(out)@ + render_font_row(name@, *font),
{
    out.append("\t(\"");
    out.append(name);
    out.append("\", Font { line_size: ");
    push_usize(out, font.line_size);
    out.append(", font_size: ");
    push_usize(out, font.font_size);
    out.append(", entries: [");
    push_entries(out, &font.entries);
    out.append("] }),\n");
    proof {
        assert(final(out)@ =~= old(out)@ + render_font_row(name@, *font));
    }
}

/// Render the finished atlas as the textual artifact whose grammar
/// [`render_atlas`] fixes; `raw_name` is the file name the artifact points
/// at for the raw pixel dump (the caller writes `atlas.pixels` there).
#[verifier::loop_isolation(false)]
#[verifier::rlimit(100)]
pub fn render_rust_source(a: &Atlas, raw_name: &str) -> (out: String)
    ensures
        out@ == render_atlas(*a, raw_name@),
{
    let mut out = String::new();
    out.append(
        "
pub struct Vec2i {
    pub x: i32,
    pub y: i32,
}

pub struct Recti {
    pub x: usize,
    pub y: usize,
    pub width: usize,
    pub height: usize,
}

pub struct CharEntry {
    pub offset: Vec2i,
    pub advance: Vec2i,
    pub rect: Recti,
}

pub struct Font {
    pub line_size: usize,
    pub font_size: usize,
    pub entries: [CharEntry; 95],
}

pub struct Icon {
    pub rect: Recti,
}

pub struct Atlas<'a> {
    pub width: usize,
    pub height: usize,
    pub pixels_path: &'a str,
    pub fonts: &'a [(&'a str, Font)],
    pub icons: &'a [(&'a str, Icon)],
}

",
    );
    let ghost base0 = out@;
    let mut i: usize = 0;
    while i < a.icons.len()
        invariant
            i <= a.icons@.len(),
            out@ == base0 + render_icon_consts(a.icons@, i as int),
        decreases a.icons@.len() - i,
    {
        push_const(&mut out, a.icons[i].0.as_str(), i);
        proof {
            assert(out@ =~= base0 + render_icon_consts(a.icons@, i + 1));
        }
        i += 1;
    }
    let ghost base1 = out@;
    let mut i: usize = 0;
    while i < a.fonts.len()
        invariant
            i <= a.fonts@.len(),
            out@ == base1 + render_font_consts(a.fonts@, i as int),
        decreases a.fonts@.len() - i,
    {
        push_const(&mut out, a.fonts[i].0.as_str(), i);
        proof {
            assert(out@ =~= base1 + render_font_consts(a.fonts@, i + 1));
        }
        i += 1;
    }
    out.append("\nconst ICONS : [(&str, Icon); ");
    push_usize(&mut out, a.icons.len());
    out.append("] = [\n");
    let ghost base2 = out@;
    let mut i: usize = 0;
    while i < a.icons.len()
        invariant
            i <= a.icons@.len(),
            out@ == base2 + render_icon_rows(a.icons@, i as int),
        decreases a.icons@.len() - i,
    {
        push_icon_row(&mut out, a.icons[i].0.as_str(), &a.icons[i].1);
        proof {
            assert(out@ =~= base2 + render_icon_rows(a.icons@, i + 1));
        }
        i += 1;
    }
    out.append("];\n");
    out.append("\nconst FONTS : [(&str, Font); ");
    push_usize(&mut out, a.fonts.len());
    out.append("] = [\n");
    let ghost base3 = out@;
    let mut i: usize = 0;
    while i < a.fonts.len()
        invariant
            i <= a.fonts@.len(),
            out@ == base3 + render_font_rows(a.fonts@, i as int),
        decreases a.fonts@.len() - i,
    {
        push_font_row(&mut out, a.fonts[i].0.as_str(), &a.fonts[i].1);
        proof {
            assert(out@ =~= base3 + render_font_rows(a.fonts@, i + 1));
        }
        i += 1;
    }
    out.append("];\n");
    out.append("\npub const ATLAS : Atlas = Atlas {\n");
    out.append("\twidth: ");
    push_usize(&mut out, a.width);
    out.append(", height: ");
    push_usize(&mut out, a.height);
    out.append(",\n");
    out.append("\tpixels_path: \"");
    out.append(raw_name);
    out.append("\",\n");
    out.append("\tfonts: &FONTS,\n");
    out.append("\ticons: &ICONS,\n");
    out.append("};\n");
    proof {
        assert(out@ =~= render_atlas(*a, raw_name@));
    }
    out
}

} // verus!
