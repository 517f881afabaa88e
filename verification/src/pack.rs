//! Texture atlases: the flags and tiles of a build, and the numbers that the
//! packing rules use.

use crate::bitmap::Bitmap;
use crate::gather::{FontAsset, GatheredAssets, ImageAsset};
use crate::layout::{
    all_wf, dedicated_first, planned, refused, sound, tidy, CanvasPlan, Layout, PackError, Plan,
    Spot,
};
use crate::paint::{paint, shows};
use crate::planner::{complete, plan_layout};
use crate::text::{decimal, lemma_decimal_injective, push_decimal, text_is};
use vstd::prelude::*;

verus! {

/// Along which axes a texture repeats.
#[derive(Debug, Clone, Copy, PartialEq, Eq, Structural, Default)]
pub struct TextureFlags {
    pub repeat_x: bool,
    pub repeat_y: bool,
}

impl TextureFlags {
    /// The flags of a texture that repeats along both axes.
    pub open spec fn both() -> TextureFlags {
        TextureFlags { repeat_x: true, repeat_y: true }
    }

    /// The flags of a texture that repeats along x only.
    pub open spec fn x_only() -> TextureFlags {
        TextureFlags { repeat_x: true, repeat_y: false }
    }

    /// The flags of a texture that does not repeat.
    pub open spec fn none() -> TextureFlags {
        TextureFlags { repeat_x: false, repeat_y: false }
    }

    /// The flags of a texture that repeats along both axes.
    pub fn repeat() -> (r: TextureFlags)
        ensures
            r == TextureFlags::both(),
    {
        TextureFlags { repeat_x: true, repeat_y: true }
    }

    /// The flags of a texture that repeats along x only.
    pub fn repeat_x_only() -> (r: TextureFlags)
        ensures
            r == TextureFlags::x_only(),
    {
        TextureFlags { repeat_x: true, repeat_y: false }
    }

    /// The flags of a texture that does not repeat.
    pub fn no_repeat() -> (r: TextureFlags)
        ensures
            r == TextureFlags::none(),
    {
        TextureFlags { repeat_x: false, repeat_y: false }
    }
}

/// The image belongs to the category of character sheets.
pub open spec fn in_characters(asset: ImageAsset) -> bool {
    asset.category().len() > 0 && asset.category().last() == "characters"@
}

/// The margin kept free left and right of an image, and the one above and
/// below it: an eighth of its width and of its height for a character sheet,
/// two pixels for every other image.
pub open spec fn pad_of(asset: ImageAsset) -> (u32, u32) {
    if in_characters(asset) {
        (asset.rgba.width / 8, asset.rgba.height / 8)
    } else {
        (2, 2)
    }
}

/// The margins of an image: the horizontal one, then the vertical one.
pub fn pad_for_image_asset(asset: &ImageAsset) -> (r: (u32, u32))
    requires
        asset.entry.asset_path@.len() > 0,
    ensures
        r == pad_of(*asset),
{
    let category = asset.entry.asset_path.path();
    let n = category.len();
    if n > 0 {
        let last = category[n - 1].as_str();
        assert(asset.category().last() == last@);
        if text_is(last, "characters") {
            return (asset.rgba.width / 8, asset.rgba.height / 8);
        }
    }
    (2, 2)
}

/// The name of the canvas with the given number: `atlas_` and the number's
/// decimal numeral.
pub open spec fn atlas_name_text(i: nat) -> Seq<char> {
    "atlas_"@ + decimal(i)
}

/// The name of the canvas with the given number.
pub fn atlas_name(i: usize) -> (r: String)
    ensures
        r@ == atlas_name_text(i as nat),
{
    let mut name = String::from_str("atlas_");
    push_decimal(&mut name, i);
    name
}

/// Canvases with different numbers have different names.
pub proof fn lemma_atlas_names_differ(i: nat, j: nat)
    requires
        atlas_name_text(i) == atlas_name_text(j),
    ensures
        i == j,
{
    let prefix = "atlas_"@;
    assert(decimal(i) =~= atlas_name_text(i).subrange(
        prefix.len() as int,
        atlas_name_text(i).len() as int,
    ));
    assert(decimal(j) =~= atlas_name_text(j).subrange(
        prefix.len() as int,
        atlas_name_text(j).len() as int,
    ));
    lemma_decimal_injective(i, j);
}

/// `e` is a power of two.
pub open spec fn is_pow2(e: int) -> bool
    decreases e,
{
    e == 1 || (e > 1 && e % 2 == 0 && is_pow2(e / 2))
}

/// The first of `e`, `2 * e`, `4 * e`, ... that is at least `n`.
pub open spec fn doubled_up_to(e: int, n: int) -> int
    decreases
            (if n >= e {
                n - e
            } else {
                0
            }),
{
    if e >= n || e <= 0 {
        e
    } else {
        doubled_up_to(2 * e, n)
    }
}

/// The least power of two that is at least `n` and at least 2.
pub open spec fn next_pow2(n: int) -> int {
    doubled_up_to(2, n)
}

/// The least power of two that is at least `n` and at least 2.
pub fn next_pow2_number(n: usize) -> (e: usize)
    requires
        n <= usize::MAX / 2 + 1,
    ensures
        e == next_pow2(n as int),
        is_pow2(e as int),
        e >= n,
        e >= 2,
        e == 2 || e / 2 < n,
{
    let mut e: usize = 2;
    assert(is_pow2(2)) by {
        assert(is_pow2(1));
    }
    while e < n
        invariant
            n <= usize::MAX / 2 + 1,
            e >= 2,
            is_pow2(e as int),
            e == 2 || e / 2 < n,
            doubled_up_to(e as int, n as int) == next_pow2(n as int),
        decreases
                (if n >= e {
                    n - e
                } else {
                    0
                }),
    {
        e = e * 2;
    }
    e
}

/// Doubling from a positive number never goes below it, and stays at or below
/// a bound that doubling reaches.
pub proof fn lemma_doubled_bounded(e: int, n: int, bound: int)
    requires
        0 < e <= bound,
        n <= bound,
        doubled_up_to(e, bound) == bound,
    ensures
        e <= doubled_up_to(e, n) <= bound,
        n <= doubled_up_to(e, n),
    decreases
            (if n >= e {
                n - e
            } else {
                0
            }),
{
    if e < n {
        lemma_doubled_grows(2 * e, bound);
        lemma_doubled_bounded(2 * e, n, bound);
    }
}

proof fn lemma_doubled_grows(e: int, n: int)
    requires
        0 < e,
    ensures
        e <= doubled_up_to(e, n),
    decreases
            (if n >= e {
                n - e
            } else {
                0
            }),
{
    if e < n {
        lemma_doubled_grows(2 * e, n);
    }
}

/// A point of a texture: a column and a row.
#[derive(Debug, Clone, Copy, PartialEq, Eq, Structural)]
pub struct Corner {
    pub x: u32,
    pub y: u32,
}

/// Where a packed image is found: the name of its texture and the corners
/// of the rectangle that it covers there, the second one just outside it.
#[derive(Debug, Clone)]
pub struct TextureTile {
    pub atlas: String,
    pub min: Corner,
    pub max: Corner,
}

/// What a `TextureTile` holds.
pub struct Tile {
    pub atlas: Seq<char>,
    pub min: Corner,
    pub max: Corner,
}

impl View for TextureTile {
    type V = Tile;

    open spec fn view(&self) -> Tile {
        Tile { atlas: self.atlas@, min: self.min, max: self.max }
    }
}

/// The tile of an image at a place: it names the canvas of the place and
/// covers the image without its margins.
pub open spec fn tile_of(asset: ImageAsset, spot: Spot) -> Tile {
    Tile {
        atlas: atlas_name_text(spot.canvas as nat),
        min: Corner { x: spot.x, y: spot.y },
        max: Corner {
            x: (spot.x + asset.rgba.width) as u32,
            y: (spot.y + asset.rgba.height) as u32,
        },
    }
}

/// The tiles of those of the first `n` images that have a place, each under
/// the image's name, in the order of the images.
pub open spec fn tiles_of(images: Seq<ImageAsset>, plan: Plan, n: int) -> Seq<(Seq<char>, Tile)>
    decreases n,
{
    if n <= 0 {
        Seq::empty()
    } else {
        let earlier = tiles_of(images, plan, n - 1);
        match plan.spots[n - 1] {
            Some(spot) => earlier.push((images[n - 1].ident(), tile_of(images[n - 1], spot))),
            None => earlier,
        }
    }
}

/// What a list of named tiles holds.
pub open spec fn tile_list(tiles: Seq<(String, TextureTile)>) -> Seq<(Seq<char>, Tile)> {
    Seq::new(tiles.len(), |k: int| (tiles[k].0@, tiles[k].1@))
}

/// Names the tile of every image that has a place.
pub fn name_tiles(images: &Vec<ImageAsset>, layout: &Layout) -> (tiles: Vec<(String, TextureTile)>)
    requires
        all_wf(images@),
        sound(images@, layout@),
    ensures
        tile_list(tiles@) == tiles_of(images@, layout@, images@.len() as int),
{
    let mut tiles: Vec<(String, TextureTile)> = Vec::new();
    let mut n: usize = 0;
    while n < images.len()
        invariant
            n <= images@.len(),
            all_wf(images@),
            sound(images@, layout@),
            tile_list(tiles@) == tiles_of(images@, layout@, n as int),
        decreases images@.len() - n,
    {
        match layout.spots[n] {
            Some(spot) => {
                let image = &images[n];
                assert(image.wf());
                assert(layout@.spots[n as int].is_some());
                let tile = TextureTile {
                    atlas: atlas_name(spot.canvas),
                    min: Corner { x: spot.x, y: spot.y },
                    max: Corner { x: spot.x + image.rgba.width, y: spot.y + image.rgba.height },
                };
                let ghost before = tiles@;
                tiles.push((image.entry.asset_path.ident().to_owned(), tile));
                assert(tile_list(tiles@) =~= tile_list(before).push(
                    (image.ident(), tile_of(*image, spot)),
                ));
            },
            None => {},
        }
        n += 1;
    }
    tiles
}

/// Packs the images into textures: plans the canvases, draws them, and names
/// the tile of every image.
///
/// The textures are the canvases of `planned`, in its order, and the tiles
/// those of its places. Every image lies inside its texture and apart from
/// the others there, an image that repeats along no axis with its margins.
/// Images that are not to be packed get no tile. There is no result where
/// there is no plan.
pub fn make_texture_atlases(images: &Vec<ImageAsset>) -> (r: Result<
    (Vec<(Bitmap, TextureFlags)>, Vec<(String, TextureTile)>),
    PackError,
>)
    requires
        all_wf(images@),
    ensures
        match r {
            Ok(packed) => {
                &&& planned(images@) matches Ok(plan)
                &&& shows(packed.0@, images@, plan)
                &&& tile_list(packed.1@) == tiles_of(images@, plan, images@.len() as int)
                &&& sound(images@, plan)
                &&& tidy(images@, plan)
                &&& complete(images@, plan)
                &&& dedicated_first(images@, plan)
            },
            Err(e) => refused(images@, e) && planned(images@) == Err::<Plan, PackError>(e),
        },
{
    let layout = match plan_layout(images) {
        Ok(layout) => layout,
        Err(e) => {
            return Err(e);
        },
    };
    assert(planned(images@) == Ok::<Plan, PackError>(layout@));
    let atlases = paint(images, &layout);
    let tiles = name_tiles(images, &layout);
    Ok((atlases, tiles))
}

/// Packing is a function of the images: two packings of the same images give
/// the same number of textures, of the same sizes and flags and with the same
/// bytes, and the same tiles under the same names.
pub proof fn lemma_packing_is_deterministic(
    images: Seq<ImageAsset>,
    plan: Plan,
    first: (Vec<(Bitmap, TextureFlags)>, Vec<(String, TextureTile)>),
    second: (Vec<(Bitmap, TextureFlags)>, Vec<(String, TextureTile)>),
)
    requires
        planned(images) == Ok::<Plan, PackError>(plan),
        shows(first.0@, images, plan),
        shows(second.0@, images, plan),
        tile_list(first.1@) == tiles_of(images, plan, images.len() as int),
        tile_list(second.1@) == tiles_of(images, plan, images.len() as int),
    ensures
        first.0@.len() == second.0@.len(),
        forall|k: int|
            0 <= k < first.0@.len() ==> {
                &&& (#[trigger] first.0@[k]).0.width == second.0@[k].0.width
                &&& first.0@[k].0.height == second.0@[k].0.height
                &&& first.0@[k].0.data@ == second.0@[k].0.data@
                &&& first.0@[k].1 == second.0@[k].1
            },
        first.1@.len() == second.1@.len(),
        forall|k: int|
            0 <= k < first.1@.len() ==> (#[trigger] first.1@[k]).0@ == second.1@[k].0@
                && first.1@[k].1@ == second.1@[k].1@,
{
    assert forall|k: int| 0 <= k < first.0@.len() implies {
        &&& (#[trigger] first.0@[k]).0.width == second.0@[k].0.width
        &&& first.0@[k].0.height == second.0@[k].0.height
        &&& first.0@[k].0.data@ == second.0@[k].0.data@
        &&& first.0@[k].1 == second.0@[k].1
    } by {
        assert(second.0@[k].0.wf());
    }
    assert(tile_list(first.1@).len() == first.1@.len());
    assert(tile_list(second.1@).len() == second.1@.len());
    assert forall|k: int| 0 <= k < first.1@.len() implies (#[trigger] first.1@[k]).0@
        == second.1@[k].0@ && first.1@[k].1@ == second.1@[k].1@ by {
        assert(tile_list(first.1@)[k] == (first.1@[k].0@, first.1@[k].1@));
        assert(tile_list(second.1@)[k] == (second.1@[k].0@, second.1@[k].1@));
    }
}

/// What a build hands to the renderer: the textures with their flags, the
/// tile of every image, the fonts, and the font that is used where none is
/// named.
#[derive(Debug, Clone)]
pub struct PackedAssets {
    pub textures: Vec<(String, TextureFlags)>,
    pub tiles: Vec<(String, TextureTile)>,
    pub fonts: Vec<String>,
    pub default_font: String,
}

/// Why a build fails.
#[derive(Debug, Clone, Copy, PartialEq, Eq, Structural)]
pub enum BuildError {
    /// The images cannot be packed.
    Pack(PackError),
    /// No font is marked as the default.
    NoDefaultFont,
    /// More than one font is marked as the default.
    ManyDefaultFonts,
}

/// What a list of named textures holds.
pub open spec fn texture_list(textures: Seq<(String, TextureFlags)>) -> Seq<
    (Seq<char>, TextureFlags),
> {
    Seq::new(textures.len(), |k: int| (textures[k].0@, textures[k].1))
}

/// What a list of names holds.
pub open spec fn name_list(names: Seq<String>) -> Seq<Seq<char>> {
    Seq::new(names.len(), |k: int| names[k]@)
}

/// The canvases as textures: each under the name of its number, with its
/// flags.
pub open spec fn atlas_textures(canvases: Seq<CanvasPlan>) -> Seq<(Seq<char>, TextureFlags)> {
    Seq::new(canvases.len(), |k: int| (atlas_name_text(k as nat), canvases[k].flags))
}

/// The textures of those of the first `n` images that are not packed: each
/// under the image's name, with the image's flags.
pub open spec fn standalone_textures(images: Seq<ImageAsset>, n: int) -> Seq<
    (Seq<char>, TextureFlags),
>
    decreases n,
{
    if n <= 0 {
        Seq::empty()
    } else if images[n - 1].no_pack {
        standalone_textures(images, n - 1).push(
            (
                images[n - 1].ident(),
                TextureFlags {
                    repeat_x: images[n - 1].repeat_x,
                    repeat_y: images[n - 1].repeat_y,
                },
            ),
        )
    } else {
        standalone_textures(images, n - 1)
    }
}

/// The tiles of those of the first `n` images that are not packed: each
/// covers the whole of the texture that has the image's name.
pub open spec fn standalone_tiles(images: Seq<ImageAsset>, n: int) -> Seq<(Seq<char>, Tile)>
    decreases n,
{
    if n <= 0 {
        Seq::empty()
    } else if images[n - 1].no_pack {
        standalone_tiles(images, n - 1).push(
            (
                images[n - 1].ident(),
                Tile {
                    atlas: images[n - 1].ident(),
                    min: Corner { x: 0, y: 0 },
                    max: Corner { x: images[n - 1].rgba.width, y: images[n - 1].rgba.height },
                },
            ),
        )
    } else {
        standalone_tiles(images, n - 1)
    }
}

/// The names of the fonts, in their order.
pub open spec fn font_names(fonts: Seq<FontAsset>) -> Seq<Seq<char>> {
    Seq::new(fonts.len(), |k: int| fonts[k].ident())
}

/// Font `i` is the only one that is marked as the default.
pub open spec fn only_default(fonts: Seq<FontAsset>, i: int) -> bool {
    &&& 0 <= i < fonts.len()
    &&& fonts[i].is_default
    &&& forall|j: int| 0 <= j < fonts.len() && j != i ==> !(#[trigger] fonts[j]).is_default
}

/// Finds the default font in one pass: the only font that is marked so.
pub fn find_default_font(fonts: &Vec<FontAsset>) -> (r: Result<usize, BuildError>)
    ensures
        match r {
            Ok(i) => only_default(fonts@, i as int),
            Err(BuildError::NoDefaultFont) => forall|j: int|
                0 <= j < fonts@.len() ==> !(#[trigger] fonts@[j]).is_default,
            Err(BuildError::ManyDefaultFonts) => exists|i: int, j: int|
                0 <= i < j < fonts@.len() && (#[trigger] fonts@[i]).is_default && (
                #[trigger] fonts@[j]).is_default,
            Err(BuildError::Pack(_)) => false,
        },
{
    let mut found: Option<usize> = None;
    let mut n: usize = 0;
    while n < fonts.len()
        invariant
            n <= fonts@.len(),
            match found {
                Some(i) => i < n && fonts@[i as int].is_default && forall|j: int|
                    0 <= j < n && j != i ==> !(#[trigger] fonts@[j]).is_default,
                None => forall|j: int| 0 <= j < n ==> !(#[trigger] fonts@[j]).is_default,
            },
        decreases fonts@.len() - n,
    {
        if fonts[n].is_default {
            match found {
                Some(i) => {
                    assert(fonts@[i as int].is_default && fonts@[n as int].is_default);
                    return Err(BuildError::ManyDefaultFonts);
                },
                None => {
                    found = Some(n);
                },
            }
        }
        n += 1;
    }
    match found {
        Some(i) => Ok(i),
        None => Err(BuildError::NoDefaultFont),
    }
}

/// What the build of a catalog hands to the renderer, for a plan of its
/// images: the canvases of the plan and then the images that are not packed
/// as textures, the tiles of the packed images and then those of the others,
/// the names of the fonts, and the name of the only default font.
pub open spec fn describes(manifest: PackedAssets, gathered: GatheredAssets, plan: Plan) -> bool {
    let images = gathered.images@;
    &&& texture_list(manifest.textures@) == atlas_textures(plan.canvases) + standalone_textures(
        images,
        images.len() as int,
    )
    &&& tile_list(manifest.tiles@) == tiles_of(images, plan, images.len() as int)
        + standalone_tiles(images, images.len() as int)
    &&& name_list(manifest.fonts@) == font_names(gathered.fonts@)
    &&& exists|i: int|
        only_default(gathered.fonts@, i) && manifest.default_font@
            == (#[trigger] gathered.fonts@[i]).ident()
}

/// Builds what the renderer gets from a catalog: packs the images into
/// textures and describes the textures, the tiles and the fonts.
///
/// The build fails where the images cannot be packed, and else where not
/// exactly one font is marked as the default.
pub fn pack_assets(gathered: &GatheredAssets) -> (r: Result<
    (PackedAssets, Vec<(Bitmap, TextureFlags)>),
    BuildError,
>)
    requires
        gathered.wf(),
    ensures
        match r {
            Ok(built) => {
                &&& planned(gathered.images@) matches Ok(plan)
                &&& shows(built.1@, gathered.images@, plan)
                &&& describes(built.0, *gathered, plan)
                &&& sound(gathered.images@, plan)
                &&& tidy(gathered.images@, plan)
                &&& complete(gathered.images@, plan)
                &&& dedicated_first(gathered.images@, plan)
            },
            Err(BuildError::Pack(e)) => refused(gathered.images@, e) && planned(gathered.images@)
                == Err::<Plan, PackError>(e),
            Err(BuildError::NoDefaultFont) => planned(gathered.images@) is Ok && forall|j: int|
                0 <= j < gathered.fonts@.len() ==> !(#[trigger] gathered.fonts@[j]).is_default,
            Err(BuildError::ManyDefaultFonts) => planned(gathered.images@) is Ok && exists|
                i: int,
                j: int,
            |
                0 <= i < j < gathered.fonts@.len() && (#[trigger] gathered.fonts@[i]).is_default
                    && (#[trigger] gathered.fonts@[j]).is_default,
        },
{
    let images = &gathered.images;
    let (atlases, packed_tiles) = match make_texture_atlases(images) {
        Ok(packed) => packed,
        Err(e) => {
            return Err(BuildError::Pack(e));
        },
    };
    let ghost plan = planned(images@).unwrap();
    let default = match find_default_font(&gathered.fonts) {
        Ok(i) => i,
        Err(e) => {
            return Err(e);
        },
    };
    let mut textures: Vec<(String, TextureFlags)> = Vec::new();
    let mut k: usize = 0;
    while k < atlases.len()
        invariant
            k <= atlases@.len(),
            shows(atlases@, images@, plan),
            textures@.len() == k,
            forall|j: int|
                0 <= j < k ==> (#[trigger] textures@[j]).0@ == atlas_name_text(j as nat)
                    && textures@[j].1 == plan.canvases[j].flags,
        decreases atlases@.len() - k,
    {
        textures.push((atlas_name(k), atlases[k].1));
        k += 1;
    }
    assert(texture_list(textures@) =~= atlas_textures(plan.canvases));
    let mut tiles = packed_tiles;
    let mut n: usize = 0;
    while n < images.len()
        invariant
            n <= images@.len(),
            images == &gathered.images,
            gathered.wf(),
            texture_list(textures@) == atlas_textures(plan.canvases) + standalone_textures(
                images@,
                n as int,
            ),
            tile_list(tiles@) == tiles_of(images@, plan, images@.len() as int) + standalone_tiles(
                images@,
                n as int,
            ),
        decreases images@.len() - n,
    {
        let image = &images[n];
        if image.no_pack {
            assert(image.wf());
            let ghost textures_before = textures@;
            let ghost tiles_before = tiles@;
            let name = image.entry.asset_path.ident();
            textures.push(
                (
                    name.to_owned(),
                    TextureFlags { repeat_x: image.repeat_x, repeat_y: image.repeat_y },
                ),
            );
            tiles.push(
                (
                    name.to_owned(),
                    TextureTile {
                        atlas: name.to_owned(),
                        min: Corner { x: 0, y: 0 },
                        max: Corner { x: image.rgba.width, y: image.rgba.height },
                    },
                ),
            );
            assert(texture_list(textures@) =~= texture_list(textures_before).push(
                (
                    image.ident(),
                    TextureFlags { repeat_x: image.repeat_x, repeat_y: image.repeat_y },
                ),
            ));
            assert(tile_list(tiles@) =~= tile_list(tiles_before).push(
                (
                    image.ident(),
                    Tile {
                        atlas: image.ident(),
                        min: Corner { x: 0, y: 0 },
                        max: Corner { x: image.rgba.width, y: image.rgba.height },
                    },
                ),
            ));
        }
        n += 1;
    }
    let mut fonts: Vec<String> = Vec::new();
    let mut f: usize = 0;
    while f < gathered.fonts.len()
        invariant
            f <= gathered.fonts@.len(),
            gathered.wf(),
            fonts@.len() == f,
            forall|j: int| 0 <= j < f ==> (#[trigger] fonts@[j])@ == gathered.fonts@[j].ident(),
        decreases gathered.fonts@.len() - f,
    {
        assert(gathered.fonts@[f as int].entry.asset_path@.len() > 0);
        fonts.push(gathered.fonts[f].entry.asset_path.ident().to_owned());
        f += 1;
    }
    assert(name_list(fonts@) =~= font_names(gathered.fonts@));
    assert(gathered.fonts@[default as int].entry.asset_path@.len() > 0);
    let default_font = gathered.fonts[default].entry.asset_path.ident().to_owned();
    let manifest = PackedAssets { textures, tiles, fonts, default_font };
    assert(only_default(gathered.fonts@, default as int) && manifest.default_font@
        == gathered.fonts@[default as int].ident());
    Ok((manifest, atlases))
}

} // verus!
