//! Glyph atlases: the distance fields of a font's characters, laid out on
//! one texture.

use crate::allocator::{rect_inside, rects_apart, try_corner, Region};
use crate::bitmap::{blitted, lemma_blitted_at, Bitmap};
use crate::gather::FontAsset;
use crate::layout::{held, rect_within};
use crate::pack::{doubled_up_to, next_pow2, next_pow2_number, Corner};
use vstd::prelude::*;

verus! {

/// The size in pixels at which the characters are drawn.
pub const FONT_SIZE: usize = 64;

/// The width of the border that a distance field has around its character.
pub const SDF_PAD: usize = 16;

/// The characters that a glyph atlas holds.
pub const ALPHABET: &'static str =
    "abcdefghijklmnopqrstuvwxyzABCDEFGHIJKLMNOPQRSTUVWXYZ0123456789.,!:;/?|(){}[]!+-_=* \n\t'\"><~`";

/// Whether the character has the Unicode property White_Space: the
/// characters from the tab to the carriage return, the space, the next line
/// and the no-break space, the Ogham space mark, the spaces from the en quad
/// to the hair space, the line and the paragraph separator, the narrow
/// no-break space, the medium mathematical space and the ideographic space.
pub open spec fn is_white_space(ch: char) -> bool {
    let c = ch as u32;
    ||| 0x09 <= c <= 0x0d
    ||| c == 0x20
    ||| c == 0x85
    ||| c == 0xa0
    ||| c == 0x1680
    ||| 0x2000 <= c <= 0x200a
    ||| c == 0x2028
    ||| c == 0x2029
    ||| c == 0x202f
    ||| c == 0x205f
    ||| c == 0x3000
}

/// Calls `char::is_whitespace` of std, which says whether the character has
/// the Unicode property White_Space.
#[verifier::external_body]
fn char_is_whitespace(ch: char) -> (r: bool)
    ensures
        r == is_white_space(ch),
{
    ch.is_whitespace()
}

/// Whether a character leaves no mark, so that its glyph needs no room on
/// the atlas.
pub fn is_blank(ch: char) -> (r: bool)
    ensures
        r == is_white_space(ch),
{
    char_is_whitespace(ch)
}

/// The distance field of a character, one byte for each pixel, with its
/// border.
pub struct GlyphField {
    pub ch: char,
    pub field: Bitmap,
}

/// Where the distance field of a character lies on the atlas: the corners
/// of its rectangle in pixels, the second one just outside it. A blank
/// character has no field, and both corners at the origin.
#[derive(Debug, Clone, Copy, PartialEq, Eq, Structural)]
pub struct Glyph {
    pub ch: char,
    pub is_white_space: bool,
    pub min: Corner,
    pub max: Corner,
}

/// The glyph atlas of a font: the places of its glyphs on a square texture.
pub struct SdfFont {
    pub font_size: usize,
    pub name: String,
    pub atlas_size: u32,
    pub glyphs: Vec<Glyph>,
}

/// Why a glyph atlas cannot be made.
#[derive(Debug, Clone, Copy, PartialEq, Eq, Structural)]
pub enum FontError {
    /// The atlas has no room for the distance field with this number.
    AtlasFull { glyph: usize },
}

/// A glyph atlas while it is made: the glyphs placed so far, the rectangles
/// reserved for them, and the bytes of the texture.
pub struct Sheet {
    pub glyphs: Seq<Glyph>,
    pub reserved: Seq<(int, int, int, int)>,
    pub texels: Seq<u8>,
}

/// The side of the atlas: the least power of two with room for eight fields
/// of the greatest size in a row.
pub open spec fn atlas_side() -> int {
    next_pow2((FONT_SIZE + 2 * SDF_PAD) * 8)
}

/// The glyph of a blank character.
pub open spec fn blank_glyph(ch: char) -> Glyph {
    Glyph { ch, is_white_space: true, min: Corner { x: 0, y: 0 }, max: Corner { x: 0, y: 0 } }
}

/// The glyph of a character whose field lies with its top left pixel at the
/// given corner.
pub open spec fn glyph_at(piece: GlyphField, corner: (u32, u32)) -> Glyph {
    Glyph {
        ch: piece.ch,
        is_white_space: false,
        min: Corner { x: corner.0, y: corner.1 },
        max: Corner {
            x: (corner.0 + piece.field.width) as u32,
            y: (corner.1 + piece.field.height) as u32,
        },
    }
}

/// The atlas after the first `n` fields were laid out, or the first field
/// for which it has no room. A blank character takes no room. Every other
/// field goes where the allocator puts it.
pub open spec fn with_glyphs(pieces: Seq<GlyphField>, n: int) -> Result<Sheet, FontError>
    decreases n,
{
    let side = atlas_side();
    if n <= 0 {
        Ok(
            Sheet {
                glyphs: Seq::empty(),
                reserved: Seq::empty(),
                texels: Seq::new((side * side) as nat, |i: int| 0u8),
            },
        )
    } else {
        match with_glyphs(pieces, n - 1) {
            Err(e) => Err(e),
            Ok(sheet) => {
                let piece = pieces[n - 1];
                if is_white_space(piece.ch) {
                    Ok(
                        Sheet {
                            glyphs: sheet.glyphs.push(blank_glyph(piece.ch)),
                            reserved: sheet.reserved,
                            texels: sheet.texels,
                        },
                    )
                } else {
                    match try_corner(
                        (side, side),
                        sheet.reserved,
                        piece.field.width as int,
                        piece.field.height as int,
                    ) {
                        None => Err(FontError::AtlasFull { glyph: (n - 1) as usize }),
                        Some(c) => Ok(
                            Sheet {
                                glyphs: sheet.glyphs.push(glyph_at(piece, c)),
                                reserved: sheet.reserved.push(
                                    (
                                        c.0 as int,
                                        c.1 as int,
                                        c.0 + piece.field.width,
                                        c.1 + piece.field.height,
                                    ),
                                ),
                                texels: blitted(
                                    sheet.texels,
                                    side,
                                    piece.field.data@,
                                    piece.field.width as int,
                                    piece.field.height as int,
                                    c.0 as int,
                                    c.1 as int,
                                ),
                            },
                        ),
                    }
                }
            },
        }
    }
}

/// The rectangle of a glyph on the atlas.
pub open spec fn glyph_rect(glyph: Glyph) -> (int, int, int, int) {
    (glyph.min.x as int, glyph.min.y as int, glyph.max.x as int, glyph.max.y as int)
}

/// The glyphs are those of the fields, one for each and in their order. A
/// blank character has the blank glyph. Every other glyph has the size of
/// its field and lies inside the atlas, and no two of them share a pixel.
pub open spec fn glyphs_sound(pieces: Seq<GlyphField>, glyphs: Seq<Glyph>, side: int) -> bool {
    &&& glyphs.len() == pieces.len()
    &&& forall|k: int|
        0 <= k < glyphs.len() ==> {
            let glyph = #[trigger] glyphs[k];
            &&& glyph.ch == pieces[k].ch
            &&& glyph.is_white_space == is_white_space(glyph.ch)
            &&& glyph.is_white_space ==> glyph == blank_glyph(glyph.ch)
            &&& !glyph.is_white_space ==> {
                &&& glyph.max.x == glyph.min.x + pieces[k].field.width
                &&& glyph.max.y == glyph.min.y + pieces[k].field.height
                &&& rect_inside(glyph_rect(glyph), (side, side))
            }
        }
    &&& forall|k: int, l: int|
        0 <= k < l < glyphs.len() && !(#[trigger] glyphs[k]).is_white_space && !(
        #[trigger] glyphs[l]).is_white_space ==> rects_apart(
            glyph_rect(glyphs[k]),
            glyph_rect(glyphs[l]),
        )
}

/// The fields are well formed, each with one byte for a pixel.
pub open spec fn all_fields_wf(pieces: Seq<GlyphField>) -> bool {
    forall|k: int|
        0 <= k < pieces.len() ==> (#[trigger] pieces[k]).field.wf() && pieces[k].field.channels == 1
}

/// The side of the atlas is 1024.
pub proof fn lemma_atlas_side()
    ensures
        atlas_side() == 1024,
{
    reveal_with_fuel(doubled_up_to, 12);
}

/// Once the atlas is full, it is full however many more fields are tried.
pub proof fn lemma_glyphs_fail(pieces: Seq<GlyphField>, m: int, n: int)
    requires
        0 <= m <= n,
        with_glyphs(pieces, m) is Err,
    ensures
        with_glyphs(pieces, n) == with_glyphs(pieces, m),
    decreases n - m,
{
    if m < n {
        lemma_glyphs_fail(pieces, m, n - 1);
    }
}

/// Lays out the distance fields of a font's characters on one atlas.
///
/// The atlas is that of `with_glyphs`: the fields are placed in their order,
/// and the atlas shows each of them at its glyph's rectangle. There is no
/// atlas where one of the fields finds no room.
pub fn font_to_sdf_font(font_asset: &FontAsset, pieces: &Vec<GlyphField>) -> (r: Result<
    (SdfFont, Bitmap),
    FontError,
>)
    requires
        font_asset.entry.asset_path@.len() > 0,
        all_fields_wf(pieces@),
    ensures
        match r {
            Ok(made) => {
                &&& with_glyphs(pieces@, pieces@.len() as int) matches Ok(sheet)
                &&& made.0.glyphs@ == sheet.glyphs
                &&& made.1.data@ == sheet.texels
                &&& made.1.wf()
                &&& made.1.channels == 1
                &&& made.1.width == atlas_side()
                &&& made.1.height == atlas_side()
                &&& made.0.atlas_size == atlas_side()
                &&& made.0.font_size == FONT_SIZE
                &&& made.0.name@ == font_asset.entry.asset_path@.last()
                &&& glyphs_sound(pieces@, made.0.glyphs@, atlas_side())
            },
            Err(e) => with_glyphs(pieces@, pieces@.len() as int) == Err::<Sheet, FontError>(e),
        },
{
    proof {
        lemma_atlas_side();
    }
    let side = next_pow2_number((FONT_SIZE + 2 * SDF_PAD) * 8) as u32;
    assert(side as int * side as int == 1048576) by (nonlinear_arith)
        requires
            side == 1024,
    ;
    let mut region = Region::new(side, side);
    let mut atlas = Bitmap::new(side, side, 1);
    assert(atlas.data@ =~= Seq::new((atlas_side() * atlas_side()) as nat, |i: int| 0u8));
    let mut glyphs: Vec<Glyph> = Vec::new();
    let mut n: usize = 0;
    while n < pieces.len()
        invariant
            n <= pieces@.len(),
            all_fields_wf(pieces@),
            side == 1024,
            atlas_side() == 1024,
            region.wf(),
            region.width == side,
            region.height == side,
            atlas.wf(),
            atlas.channels == 1,
            atlas.width == side,
            atlas.height == side,
            with_glyphs(pieces@, n as int) == Ok::<Sheet, FontError>(
                Sheet { glyphs: glyphs@, reserved: region.taken(), texels: atlas.data@ },
            ),
            glyphs_sound(pieces@.take(n as int), glyphs@, side as int),
            forall|k: int|
                0 <= k < n && !(#[trigger] glyphs@[k]).is_white_space ==> held(
                    region.taken(),
                    glyph_rect(glyphs@[k]),
                ),
        decreases pieces@.len() - n,
    {
        let piece = &pieces[n];
        assert(piece.field.wf() && piece.field.channels == 1);
        let ghost glyphs_before = glyphs@;
        let ghost held_before = region.taken();
        if is_blank(piece.ch) {
            glyphs.push(
                Glyph {
                    ch: piece.ch,
                    is_white_space: true,
                    min: Corner { x: 0, y: 0 },
                    max: Corner { x: 0, y: 0 },
                },
            );
        } else {
            let w = piece.field.width;
            let h = piece.field.height;
            match region.place(w as u64, h as u64) {
                None => {
                    proof {
                        assert(with_glyphs(pieces@, n as int + 1) == Err::<Sheet, FontError>(
                            FontError::AtlasFull { glyph: n },
                        ));
                        lemma_glyphs_fail(pieces@, n as int + 1, pieces@.len() as int);
                    }
                    return Err(FontError::AtlasFull { glyph: n });
                },
                Some(corner) => {
                    atlas.blit(&piece.field, corner.0, corner.1);
                    let glyph = Glyph {
                        ch: piece.ch,
                        is_white_space: false,
                        min: Corner { x: corner.0, y: corner.1 },
                        max: Corner { x: corner.0 + w, y: corner.1 + h },
                    };
                    glyphs.push(glyph);
                    proof {
                        let taken = glyph_rect(glyph);
                        assert(region.taken()[held_before.len() as int] == taken);
                        assert forall|k: int|
                            0 <= k < n && !(
                            #[trigger] glyphs@[k]).is_white_space implies rects_apart(
                            glyph_rect(glyphs@[k]),
                            taken,
                        ) && held(region.taken(), glyph_rect(glyphs@[k])) by {
                            assert(glyphs@[k] == glyphs_before[k]);
                            let at = choose|at: int|
                                0 <= at < held_before.len() && rect_within(
                                    glyph_rect(glyphs_before[k]),
                                    #[trigger] held_before[at],
                                );
                            assert(rects_apart(held_before[at], taken));
                            assert(region.taken()[at] == held_before[at]);
                        }
                    }
                },
            }
        }
        proof {
            assert(pieces@.take(n as int + 1)[n as int] == pieces@[n as int]);
            assert forall|k: int| 0 <= k < n implies #[trigger] glyphs@[k] == glyphs_before[k]
                && pieces@.take(n as int + 1)[k] == pieces@.take(n as int)[k] by {}
        }
        n += 1;
    }
    assert(pieces@.take(n as int) =~= pieces@);
    let name = font_asset.entry.asset_path.ident().to_owned();
    Ok((SdfFont { font_size: FONT_SIZE, name, atlas_size: side, glyphs }, atlas))
}

/// While fields are laid out, the atlas keeps its size, and a glyph that is
/// placed stays as it is.
pub proof fn lemma_glyphs_grow(pieces: Seq<GlyphField>, m: int, n: int)
    requires
        0 <= m <= n,
        with_glyphs(pieces, n) is Ok,
    ensures
        with_glyphs(pieces, m) is Ok,
        with_glyphs(pieces, m).unwrap().glyphs.len() == m,
        with_glyphs(pieces, m).unwrap().texels.len() == atlas_side() * atlas_side(),
        forall|k: int|
            0 <= k < m ==> #[trigger] with_glyphs(pieces, m).unwrap().glyphs[k] == with_glyphs(
                pieces,
                n,
            ).unwrap().glyphs[k],
    decreases n,
{
    lemma_atlas_side();
    if n > 0 {
        if m < n {
            lemma_glyphs_grow(pieces, m, n - 1);
            lemma_glyphs_grow(pieces, n - 1, n - 1);
        } else {
            lemma_glyphs_grow(pieces, n - 1, n - 1);
        }
    }
}

/// Once the field of glyph `k` is copied to the atlas, the atlas shows it at
/// the glyph's rectangle, however many of the fields after it are laid out
/// as well.
proof fn lemma_glyph_stays(pieces: Seq<GlyphField>, k: int, n: int, x: int, y: int)
    requires
        all_fields_wf(pieces),
        0 <= k < n <= pieces.len(),
        with_glyphs(pieces, pieces.len() as int) matches Ok(sheet) && glyphs_sound(
            pieces,
            sheet.glyphs,
            atlas_side(),
        ),
        !is_white_space(pieces[k].ch),
        0 <= x < pieces[k].field.width,
        0 <= y < pieces[k].field.height,
    ensures
        ({
            let glyph = with_glyphs(pieces, pieces.len() as int).unwrap().glyphs[k];
            let texels = with_glyphs(pieces, n).unwrap().texels;
            let at = (glyph.min.y + y) * atlas_side() + (glyph.min.x + x);
            &&& with_glyphs(pieces, n) is Ok
            &&& 0 <= at < texels.len()
            &&& texels[at] == pieces[k].field.data@[y * pieces[k].field.width + x]
        }),
    decreases n,
{
    let side = atlas_side();
    let last = with_glyphs(pieces, pieces.len() as int).unwrap();
    let glyph = last.glyphs[k];
    lemma_atlas_side();
    lemma_glyphs_grow(pieces, n, pieces.len() as int);
    lemma_glyphs_grow(pieces, n - 1, pieces.len() as int);
    let before = with_glyphs(pieces, n - 1).unwrap();
    let after = with_glyphs(pieces, n).unwrap();
    let piece = pieces[n - 1];
    let row = glyph.min.y + y;
    let byte = glyph.min.x + x;
    assert(rect_inside(glyph_rect(glyph), (side, side)));
    assert(row * side + side <= side * side) by (nonlinear_arith)
        requires
            0 <= row < side,
            0 <= side,
    ;
    if n - 1 > k {
        lemma_glyph_stays(pieces, k, n - 1, x, y);
    }
    if !is_white_space(piece.ch) {
        let placed = after.glyphs[n - 1];
        assert(placed == last.glyphs[n - 1]);
        let corner = try_corner(
            (side, side),
            before.reserved,
            piece.field.width as int,
            piece.field.height as int,
        ).unwrap();
        assert(placed == glyph_at(piece, corner));
        assert(!last.glyphs[n - 1].is_white_space);
        if n - 1 > k {
            assert(rects_apart(glyph_rect(last.glyphs[k]), glyph_rect(last.glyphs[n - 1])));
        }
        lemma_blitted_at(
            before.texels,
            side,
            piece.field.data@,
            piece.field.width as int,
            piece.field.height as int,
            corner.0 as int,
            corner.1 as int,
            row,
            byte,
        );
    }
}

/// The atlas shows every glyph: each byte of the field of a character that
/// is not blank is the byte of the atlas at the same place of the glyph's
/// rectangle.
pub proof fn lemma_atlas_shows_glyph(pieces: Seq<GlyphField>, k: int, x: int, y: int)
    requires
        all_fields_wf(pieces),
        0 <= k < pieces.len(),
        with_glyphs(pieces, pieces.len() as int) matches Ok(sheet) && glyphs_sound(
            pieces,
            sheet.glyphs,
            atlas_side(),
        ),
        !is_white_space(pieces[k].ch),
        0 <= x < pieces[k].field.width,
        0 <= y < pieces[k].field.height,
    ensures
        ({
            let sheet = with_glyphs(pieces, pieces.len() as int).unwrap();
            let at = (sheet.glyphs[k].min.y + y) * atlas_side() + (sheet.glyphs[k].min.x + x);
            &&& 0 <= at < sheet.texels.len()
            &&& sheet.texels[at] == pieces[k].field.data@[y * pieces[k].field.width + x]
        }),
{
    lemma_glyph_stays(pieces, k, pieces.len() as int, x, y);
}

/// The glyph of a character that is white space is the blank glyph: it is
/// marked as white space and has both corners at the origin of the atlas.
pub proof fn lemma_blank_glyph_has_no_area(pieces: Seq<GlyphField>, glyphs: Seq<Glyph>, k: int)
    requires
        glyphs_sound(pieces, glyphs, atlas_side()),
        0 <= k < pieces.len(),
        is_white_space(pieces[k].ch),
    ensures
        glyphs[k].ch == pieces[k].ch,
        glyphs[k].is_white_space,
        glyphs[k].min == (Corner { x: 0, y: 0 }),
        glyphs[k].max == (Corner { x: 0, y: 0 }),
{
}

/// A space gets a glyph that is marked as white space and has both corners
/// at the origin of the atlas; so do a tab and a line feed.
pub proof fn lemma_space_glyph_has_no_area(pieces: Seq<GlyphField>, glyphs: Seq<Glyph>, k: int)
    requires
        glyphs_sound(pieces, glyphs, atlas_side()),
        0 <= k < pieces.len(),
        pieces[k].ch == ' ' || pieces[k].ch == '\t' || pieces[k].ch == '\n',
    ensures
        glyphs[k] == (Glyph {
            ch: pieces[k].ch,
            is_white_space: true,
            min: Corner { x: 0, y: 0 },
            max: Corner { x: 0, y: 0 },
        }),
{
    lemma_blank_glyph_has_no_area(pieces, glyphs, k);
}

/// The alphabet holds the space, at its position 82.
pub proof fn lemma_alphabet_has_space()
    ensures
        ALPHABET@.len() == 91,
        ALPHABET@[82] == ' ',
        is_white_space(ALPHABET@[82]),
{
    reveal_strlit(
        "abcdefghijklmnopqrstuvwxyzABCDEFGHIJKLMNOPQRSTUVWXYZ0123456789.,!:;/?|(){}[]!+-_=* \n\t'\"><~`",
    );
}

} // verus!
