//! The assets of a build: their identifiers, the flags that their file names
//! carry, and the catalog that holds them.

use crate::bitmap::{byte_count, fits_memory, Bitmap};
use crate::text::{file_name_parts, split_file_name, text_is};
use std::path::PathBuf;
use vstd::prelude::*;
use vstd::slice::slice_subrange;

verus! {

#[verifier::external_type_specification]
#[verifier::external_body]
pub struct ExPathBuf(PathBuf);

/// `PathBuf::clone` of std: the library carries a file's path along and
/// claims nothing of the copy.
pub assume_specification[ <PathBuf as Clone>::clone ](p: &PathBuf) -> (r: PathBuf);

/// The identifier of an asset: the names of the directories that lead to it,
/// then its own name.
#[derive(Debug, Clone, PartialEq, Eq, PartialOrd, Ord, Hash)]
pub struct AssetPath {
    pub segments: Vec<String>,
}

impl View for AssetPath {
    type V = Seq<Seq<char>>;

    open spec fn view(&self) -> Seq<Seq<char>> {
        Seq::new(self.segments@.len(), |i: int| self.segments@[i]@)
    }
}

impl AssetPath {
    /// The asset's own name: the last segment.
    pub fn ident(&self) -> (r: &str)
        requires
            self@.len() > 0,
        ensures
            r@ == self@.last(),
    {
        self.segments[self.segments.len() - 1].as_str()
    }

    /// The category of the asset: every segment but the last.
    pub fn path(&self) -> (r: &[String])
        requires
            self@.len() > 0,
        ensures
            r@ == self.segments@.drop_last(),
    {
        slice_subrange(self.segments.as_slice(), 0, self.segments.len() - 1)
    }

    /// The category of the asset as texts.
    pub open spec fn category(&self) -> Seq<Seq<char>> {
        self@.drop_last()
    }

    /// The identifier without a segment.
    pub fn new() -> (r: AssetPath)
        ensures
            r@ == Seq::<Seq<char>>::empty(),
    {
        let r = AssetPath { segments: Vec::new() };
        assert(r@ =~= Seq::<Seq<char>>::empty());
        r
    }

    /// The identifier of what lies under this one by the given name.
    pub fn child(&self, segment: String) -> (r: AssetPath)
        ensures
            r@ == self@.push(segment@),
    {
        let mut segments: Vec<String> = Vec::new();
        let mut i: usize = 0;
        while i < self.segments.len()
            invariant
                i <= self.segments@.len(),
                segments@.len() == i,
                forall|k: int| 0 <= k < i ==> (#[trigger] segments@[k])@ == self.segments@[k]@,
            decreases self.segments@.len() - i,
        {
            segments.push(self.segments[i].clone());
            i += 1;
        }
        segments.push(segment);
        let r = AssetPath { segments };
        assert(r@ =~= self@.push(segment@));
        r
    }

    /// The identifier as one text: its segments with a slash between them.
    pub fn display(&self) -> (r: String)
        ensures
            r@ == joined(self@, self@.len() as int),
    {
        let mut out = String::new();
        let mut i: usize = 0;
        while i < self.segments.len()
            invariant
                i <= self.segments@.len(),
                out@ == joined(self@, i as int),
            decreases self.segments@.len() - i,
        {
            if i != 0 {
                proof {
                    reveal_strlit("/");
                }
                out.append("/");
                assert(out@ =~= joined(self@, i as int).push('/'));
            }
            out.append(self.segments[i].as_str());
            i += 1;
        }
        out
    }
}

/// The first `n` of the segments as one text, with a slash between them.
pub open spec fn joined(segments: Seq<Seq<char>>, n: int) -> Seq<char>
    decreases n,
{
    if n <= 0 {
        Seq::empty()
    } else if n == 1 {
        segments[0]
    } else {
        joined(segments, n - 1).push('/') + segments[n - 1]
    }
}

/// What `heck::ToSnakeCase::to_snake_case` makes of a text.
pub uninterp spec fn snake_case(text: Seq<char>) -> Seq<char>;

/// Calls `heck::ToSnakeCase::to_snake_case`, which writes a text in lower
/// case with underscores between its words; the result is only given its
/// name.
#[verifier::external_body]
fn to_snake_case(text: &str) -> (r: String)
    ensures
        r@ == snake_case(text@),
{
    heck::ToSnakeCase::to_snake_case(text)
}

/// Why an asset cannot be gathered.
#[derive(Debug, Clone, Copy, PartialEq, Eq, Structural)]
pub enum GatherError {
    /// The file is no image that can be read, or an image without pixels.
    BadImage,
    /// Another image has the same name.
    DuplicateImage,
    /// Another font has the same name.
    DuplicateFont,
}

/// The identifier of a directory: that of the directory it lies in, and its
/// own name in snake case.
pub fn dir_path(parent: &AssetPath, dir_name: &str) -> (r: AssetPath)
    ensures
        r@ == parent@.push(snake_case(dir_name@)),
{
    parent.child(to_snake_case(dir_name))
}

/// The entry of a file whose name was cut into its parts and whose name
/// proper was brought into its final form.
pub fn entry_named(
    parent: &AssetPath,
    name: String,
    flags: String,
    extension: String,
    path: PathBuf,
) -> (r: GatheredEntry)
    ensures
        r.asset_path@ == parent@.push(name@),
        r.flags@ == flags@,
        r.extension@ == extension@,
        r.path == path,
{
    GatheredEntry { asset_path: parent.child(name), path, flags, extension }
}

/// The entry of a file that lies in the directory `parent`: its identifier
/// ends with the name proper in snake case, and its flags and extension are
/// those that the file's name gives. A file whose name has no dot has no
/// entry.
pub fn file_entry(parent: &AssetPath, file_name: &str, path: PathBuf) -> (r: Option<GatheredEntry>)
    ensures
        match file_name_parts(file_name@) {
            None => r is None,
            Some(parts) => {
                &&& r matches Some(entry)
                &&& entry.asset_path@ == parent@.push(snake_case(parts.0))
                &&& entry.flags@ == parts.1
                &&& entry.extension@ == parts.2
                &&& entry.path == path
            },
        },
{
    match split_file_name(file_name) {
        None => None,
        Some(parts) => {
            let name = to_snake_case(parts.0.as_str());
            Some(entry_named(parent, name, parts.1, parts.2, path))
        },
    }
}

/// Whether the entry is taken for an image.
pub fn is_image_entry(entry: &GatheredEntry) -> (r: bool)
    ensures
        r == (entry.extension@ == "png"@),
{
    text_is(entry.extension.as_str(), "png")
}

/// Whether the entry is taken for a font.
pub fn is_font_entry(entry: &GatheredEntry) -> (r: bool)
    ensures
        r == (entry.extension@ == "ttf"@),
{
    text_is(entry.extension.as_str(), "ttf")
}

/// A file that was found, with what its name says.
#[derive(Debug, Clone)]
pub struct GatheredEntry {
    pub asset_path: AssetPath,
    pub path: PathBuf,
    /// What stands between the name and the extension: `rep` in
    /// `background.rep.png`.
    pub flags: String,
    pub extension: String,
}

/// An image and how it may be packed.
pub struct ImageAsset {
    pub rgba: Bitmap,
    pub entry: GatheredEntry,
    pub repeat_x: bool,
    pub repeat_y: bool,
    pub no_pack: bool,
}

impl ImageAsset {
    /// The image has pixels of four bytes, at least one of them, and an
    /// identifier with a name.
    pub open spec fn wf(&self) -> bool {
        &&& self.rgba.wf()
        &&& self.rgba.channels == 4
        &&& self.rgba.width > 0
        &&& self.rgba.height > 0
        &&& self.entry.asset_path@.len() > 0
    }

    /// The category that the image belongs to.
    pub open spec fn category(&self) -> Seq<Seq<char>> {
        self.entry.asset_path.category()
    }

    /// The image's own name.
    pub open spec fn ident(&self) -> Seq<char> {
        self.entry.asset_path@.last()
    }

    /// The image repeats along both axes and gets a canvas of its own.
    pub open spec fn tiles_both(&self) -> bool {
        !self.no_pack && self.repeat_x && self.repeat_y
    }

    /// The image repeats along x only and is stacked into a strip.
    pub open spec fn tiles_x(&self) -> bool {
        !self.no_pack && self.repeat_x && !self.repeat_y
    }

    /// The image repeats along y only.
    pub open spec fn tiles_y(&self) -> bool {
        !self.no_pack && !self.repeat_x && self.repeat_y
    }

    /// The image repeats along no axis and shares a canvas with others.
    pub open spec fn is_general(&self) -> bool {
        !self.no_pack && !self.repeat_x && !self.repeat_y
    }
}

/// The image of an entry, with what the entry's flags say of it: `rep` that
/// it repeats along both axes, `repx` and `repy` that it repeats along one,
/// `no` that it is not to be packed.
pub fn image_asset(entry: GatheredEntry, rgba: Bitmap) -> (r: ImageAsset)
    ensures
        r.entry == entry,
        r.rgba == rgba,
        r.repeat_x == (entry.flags@ == "rep"@ || entry.flags@ == "repx"@),
        r.repeat_y == (entry.flags@ == "rep"@ || entry.flags@ == "repy"@),
        r.no_pack == (entry.flags@ == "no"@),
{
    let flags = entry.flags.as_str();
    let both = text_is(flags, "rep");
    let repeat_x = both || text_is(flags, "repx");
    let repeat_y = both || text_is(flags, "repy");
    let no_pack = text_is(flags, "no");
    ImageAsset { rgba, entry, repeat_x, repeat_y, no_pack }
}

/// Calls `image::load_from_memory`, which decodes an image file that it has
/// in memory, and `DynamicImage::to_rgba8`, which gives the image's pixels
/// with four bytes each: the width, the height and the pixels row by row,
/// or none where no image is read. What is read depends on more than the
/// bytes, so nothing is claimed of it.
#[verifier::external_body]
fn decode_rgba(bytes: &Vec<u8>) -> (r: Option<(u32, u32, Vec<u8>)>) {
    match image::load_from_memory(bytes.as_slice()) {
        Ok(decoded) => {
            let rgba = decoded.to_rgba8();
            Some((rgba.width(), rgba.height(), rgba.into_raw()))
        },
        Err(_) => None,
    }
}

/// Whether pixels of the given size, with the given number of bytes, make an
/// image: it has a pixel, and a byte for every one of its pixels' four.
pub open spec fn makes_image(width: u32, height: u32, bytes: int) -> bool {
    width > 0 && height > 0 && byte_count(width, height, 4) <= bytes
}

/// The buffer of an image that was read: its first bytes, as many as its
/// pixels take.
pub fn rgba_bitmap(width: u32, height: u32, data: Vec<u8>) -> (r: Option<Bitmap>)
    ensures
        r is Some == makes_image(width, height, data@.len() as int),
        r matches Some(bitmap) ==> {
            &&& bitmap.wf()
            &&& bitmap.channels == 4
            &&& bitmap.width == width
            &&& bitmap.height == height
            &&& bitmap.data@ == data@.take(byte_count(width, height, 4))
        },
{
    let have = data.len();
    if width == 0 || height == 0 || !fits_memory(width, height, 4) {
        return None;
    }
    assert((width as int) * (height as int) <= byte_count(width, height, 4)) by (nonlinear_arith)
        requires
            0 <= width,
            0 <= height,
    ;
    let needed: usize = (width as usize) * (height as usize) * 4;
    if have < needed {
        return None;
    }
    let mut data = data;
    data.truncate(needed);
    Some(Bitmap { width, height, channels: 4, data })
}

/// The asset has the flags that the entry gives it.
pub open spec fn flags_read(asset: ImageAsset, entry: GatheredEntry) -> bool {
    &&& asset.repeat_x == (entry.flags@ == "rep"@ || entry.flags@ == "repx"@)
    &&& asset.repeat_y == (entry.flags@ == "rep"@ || entry.flags@ == "repy"@)
    &&& asset.no_pack == (entry.flags@ == "no"@)
}

/// The asset is the image of the entry whose file holds the pixels that were
/// found: it has the entry, those pixels, and the flags that the entry gives.
pub open spec fn shows_file(
    asset: ImageAsset,
    entry: GatheredEntry,
    found: (u32, u32, Seq<u8>),
) -> bool {
    &&& asset.entry == entry
    &&& asset.rgba.wf()
    &&& asset.rgba.channels == 4
    &&& asset.rgba.width == found.0
    &&& asset.rgba.height == found.1
    &&& asset.rgba.data@ == found.2.take(byte_count(found.0, found.1, 4))
    &&& flags_read(asset, entry)
}

/// The image of an entry, from what was read from its file: the width, the
/// height and the pixels.
///
/// There is no image where nothing was read, or an image without pixels, or
/// fewer bytes than the pixels take.
pub fn image_of_decoded(entry: GatheredEntry, decoded: Option<(u32, u32, Vec<u8>)>) -> (r: Result<
    ImageAsset,
    GatherError,
>)
    ensures
        match decoded {
            Some(found) if makes_image(found.0, found.1, found.2@.len() as int) => {
                r matches Ok(asset) && shows_file(asset, entry, (found.0, found.1, found.2@))
            },
            _ => r == Err::<ImageAsset, GatherError>(GatherError::BadImage),
        },
{
    match decoded {
        None => Err(GatherError::BadImage),
        Some(found) => match rgba_bitmap(found.0, found.1, found.2) {
            None => Err(GatherError::BadImage),
            Some(rgba) => Ok(image_asset(entry, rgba)),
        },
    }
}

/// Reads the image of an entry from the bytes of its file.
///
/// What the bytes hold is for the decoder to say; `image_of_decoded` says
/// which image comes of what it reads. An image that is read has pixels, four
/// bytes for each, and the entry with the flags that the entry gives. The
/// only error is that no such image was read.
pub fn load_image_asset(entry: GatheredEntry, bytes: &Vec<u8>) -> (r: Result<
    ImageAsset,
    GatherError,
>)
    ensures
        r matches Ok(asset) ==> {
            &&& asset.entry == entry
            &&& asset.rgba.wf()
            &&& asset.rgba.channels == 4
            &&& asset.rgba.width > 0
            &&& asset.rgba.height > 0
            &&& flags_read(asset, entry)
        },
        r matches Err(e) ==> e == GatherError::BadImage,
{
    image_of_decoded(entry, decode_rgba(bytes))
}

/// The font of an entry. The flag `default` makes it the default font.
pub fn load_font_asset(entry: GatheredEntry, bytes: Vec<u8>) -> (r: FontAsset)
    ensures
        r.entry == entry,
        r.bytes == bytes,
        r.is_default == (entry.flags@ == "default"@),
{
    let is_default = text_is(entry.flags.as_str(), "default");
    FontAsset { bytes, entry, is_default }
}

/// A font file. Only one font asset of a build is the default.
pub struct FontAsset {
    pub bytes: Vec<u8>,
    pub entry: GatheredEntry,
    pub is_default: bool,
}

impl FontAsset {
    /// The font's own name.
    pub open spec fn ident(&self) -> Seq<char> {
        self.entry.asset_path@.last()
    }
}

/// Whether one of the images has the given name.
pub open spec fn has_image_named(images: Seq<ImageAsset>, name: Seq<char>) -> bool {
    exists|k: int| 0 <= k < images.len() && (#[trigger] images[k]).ident() == name
}

/// Whether one of the fonts has the given name.
pub open spec fn has_font_named(fonts: Seq<FontAsset>, name: Seq<char>) -> bool {
    exists|k: int| 0 <= k < fonts.len() && (#[trigger] fonts[k]).ident() == name
}

/// The images and fonts of a build, in the order in which they were found.
pub struct GatheredAssets {
    pub images: Vec<ImageAsset>,
    pub fonts: Vec<FontAsset>,
}

impl GatheredAssets {
    /// Every image is well formed, every font has a name, and no two images
    /// and no two fonts share a name.
    pub open spec fn wf(&self) -> bool {
        &&& forall|i: int| 0 <= i < self.images@.len() ==> (#[trigger] self.images@[i]).wf()
        &&& forall|i: int|
            0 <= i < self.fonts@.len() ==> (#[trigger] self.fonts@[i]).entry.asset_path@.len() > 0
        &&& forall|i: int, j: int|
            0 <= i < j < self.images@.len() ==> (#[trigger] self.images@[i]).ident() != (
            #[trigger] self.images@[j]).ident()
        &&& forall|i: int, j: int|
            0 <= i < j < self.fonts@.len() ==> (#[trigger] self.fonts@[i]).ident() != (
            #[trigger] self.fonts@[j]).ident()
    }

    /// The catalog without an asset.
    pub fn new() -> (r: GatheredAssets)
        ensures
            r.wf(),
            r.images@.len() == 0,
            r.fonts@.len() == 0,
    {
        GatheredAssets { images: Vec::new(), fonts: Vec::new() }
    }

    /// Adds an image, unless the catalog has an image of its name.
    pub fn add_image(&mut self, asset: ImageAsset) -> (r: Result<(), GatherError>)
        requires
            old(self).wf(),
            asset.wf(),
        ensures
            final(self).wf(),
            final(self).fonts == old(self).fonts,
            if has_image_named(old(self).images@, asset.ident()) {
                r == Err::<(), GatherError>(GatherError::DuplicateImage) && final(self).images
                    == old(self).images
            } else {
                r == Ok::<(), GatherError>(()) && final(self).images@ == old(self).images@.push(
                    asset,
                )
            },
    {
        let name = asset.entry.asset_path.ident();
        let mut k: usize = 0;
        while k < self.images.len()
            invariant
                k <= self.images@.len(),
                self == old(self),
                self.wf(),
                asset.wf(),
                name@ == asset.ident(),
                forall|i: int| 0 <= i < k ==> (#[trigger] self.images@[i]).ident() != name@,
            decreases self.images@.len() - k,
        {
            assert(self.images@[k as int].wf());
            if text_is(self.images[k].entry.asset_path.ident(), name) {
                return Err(GatherError::DuplicateImage);
            }
            k += 1;
        }
        self.images.push(asset);
        Ok(())
    }

    /// Reads the image of an entry from the bytes of its file and adds it.
    ///
    /// Nothing is added where no image is read, and else where the catalog
    /// has an image of the entry's name; `load_image_asset` and `add_image`
    /// say when. An image that is added is the last of the catalog and has the
    /// entry with its flags.
    pub fn gather_image(&mut self, entry: GatheredEntry, bytes: &Vec<u8>) -> (r: Result<
        (),
        GatherError,
    >)
        requires
            old(self).wf(),
            entry.asset_path@.len() > 0,
        ensures
            final(self).wf(),
            final(self).fonts == old(self).fonts,
            match r {
                Ok(_) => {
                    &&& !has_image_named(old(self).images@, entry.asset_path@.last())
                    &&& final(self).images@.len() == old(self).images@.len() + 1
                    &&& final(self).images@.drop_last() == old(self).images@
                    &&& final(self).images@.last().entry == entry
                    &&& flags_read(final(self).images@.last(), entry)
                },
                Err(GatherError::DuplicateImage) => {
                    &&& has_image_named(old(self).images@, entry.asset_path@.last())
                    &&& final(self).images == old(self).images
                },
                Err(GatherError::BadImage) => final(self).images == old(self).images,
                Err(GatherError::DuplicateFont) => false,
            },
    {
        let asset = match load_image_asset(entry, bytes) {
            Ok(asset) => asset,
            Err(e) => {
                return Err(e);
            },
        };
        let ghost before = self.images@;
        let r = self.add_image(asset);
        proof {
            if r is Ok {
                assert(self.images@.drop_last() =~= before);
            }
        }
        r
    }

    /// Adds the font of an entry, unless the catalog has a font of its name.
    pub fn gather_font(&mut self, entry: GatheredEntry, bytes: Vec<u8>) -> (r: Result<
        (),
        GatherError,
    >)
        requires
            old(self).wf(),
            entry.asset_path@.len() > 0,
        ensures
            final(self).wf(),
            final(self).images == old(self).images,
            if has_font_named(old(self).fonts@, entry.asset_path@.last()) {
                r == Err::<(), GatherError>(GatherError::DuplicateFont) && final(self).fonts
                    == old(self).fonts
            } else {
                &&& r == Ok::<(), GatherError>(())
                &&& final(self).fonts@.len() == old(self).fonts@.len() + 1
                &&& final(self).fonts@.drop_last() == old(self).fonts@
                &&& final(self).fonts@.last().entry == entry
                &&& final(self).fonts@.last().bytes == bytes
                &&& final(self).fonts@.last().is_default == (entry.flags@ == "default"@)
            },
    {
        let asset = load_font_asset(entry, bytes);
        let ghost before = self.fonts@;
        let r = self.add_font(asset);
        proof {
            if r is Ok {
                assert(self.fonts@.drop_last() =~= before);
            }
        }
        r
    }

    /// Adds a font, unless the catalog has a font of its name.
    pub fn add_font(&mut self, asset: FontAsset) -> (r: Result<(), GatherError>)
        requires
            old(self).wf(),
            asset.entry.asset_path@.len() > 0,
        ensures
            final(self).wf(),
            final(self).images == old(self).images,
            if has_font_named(old(self).fonts@, asset.ident()) {
                r == Err::<(), GatherError>(GatherError::DuplicateFont) && final(self).fonts
                    == old(self).fonts
            } else {
                r == Ok::<(), GatherError>(()) && final(self).fonts@ == old(self).fonts@.push(
                    asset,
                )
            },
    {
        let name = asset.entry.asset_path.ident();
        let mut k: usize = 0;
        while k < self.fonts.len()
            invariant
                k <= self.fonts@.len(),
                self == old(self),
                self.wf(),
                asset.entry.asset_path@.len() > 0,
                name@ == asset.ident(),
                forall|i: int| 0 <= i < k ==> (#[trigger] self.fonts@[i]).ident() != name@,
            decreases self.fonts@.len() - k,
        {
            assert(self.fonts@[k as int].entry.asset_path@.len() > 0);
            if text_is(self.fonts[k].entry.asset_path.ident(), name) {
                return Err(GatherError::DuplicateFont);
            }
            k += 1;
        }
        self.fonts.push(asset);
        Ok(())
    }
}

} // verus!
