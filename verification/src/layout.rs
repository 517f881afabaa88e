//! Where each image goes: the canvases of a build and the place of every
//! packed image on one of them.
//!
//! The plan is made in three passes. Images that repeat along both axes get a
//! canvas each. Images that repeat along x are stacked into strips, one strip
//! for each width, and what is left below a strip takes images of the same
//! category that repeat along no axis. The other images that repeat along no
//! axis share canvases of a fixed size.

use crate::allocator::{rect_inside, rects_apart, try_corner};
use crate::bitmap::byte_count;
use crate::gather::ImageAsset;
use crate::order::general_order;
use crate::pack::{next_pow2, pad_of, TextureFlags};
use vstd::prelude::*;

verus! {

/// The side of a canvas that images share.
pub const ATLAS_SIDE: u32 = 1024;

/// The rows that a strip keeps free below each of its images.
pub const STRIP_GAP: u32 = 2;

/// The least height of a strip's canvas.
pub const MIN_STRIP_HEIGHT: u32 = 256;

/// The greatest width of a strip, and the greatest height that its images
/// and their gaps may take together.
pub const MAX_STRIP_SIDE: u32 = 0x4000_0000;

/// Why a set of images cannot be packed.
#[derive(Debug, Clone, Copy, PartialEq, Eq, Structural)]
pub enum PackError {
    /// The image repeats along y only.
    RepeatYUnsupported { image: usize },
    /// The strip that the image starts is wider or taller than a strip may
    /// be, or its canvas cannot be addressed.
    StripTooLarge { image: usize },
    /// The image with its margins does not fit a canvas.
    ImageTooLarge { image: usize },
}

/// The size of a canvas and how it repeats.
#[derive(Debug, Clone, Copy, PartialEq, Eq, Structural)]
pub struct CanvasPlan {
    pub width: u32,
    pub height: u32,
    pub flags: TextureFlags,
}

/// The place of an image: the number of its canvas and the column and row of
/// its top left pixel.
#[derive(Debug, Clone, Copy, PartialEq, Eq, Structural)]
pub struct Spot {
    pub canvas: usize,
    pub x: u32,
    pub y: u32,
}

/// The canvases of a build, and for each image its place, if it has one.
#[derive(Debug, Clone)]
pub struct Layout {
    pub canvases: Vec<CanvasPlan>,
    pub spots: Vec<Option<Spot>>,
}

/// What a `Layout` holds.
pub struct Plan {
    pub canvases: Seq<CanvasPlan>,
    pub spots: Seq<Option<Spot>>,
}

impl View for Layout {
    type V = Plan;

    open spec fn view(&self) -> Plan {
        Plan { canvases: self.canvases@, spots: self.spots@ }
    }
}

/// A plan together with the images that still wait for a place on a shared
/// canvas, in the order in which they are packed.
pub struct Progress {
    pub plan: Plan,
    pub pending: Seq<usize>,
}

/// The state of filling one region with images: the places given so far, the
/// rectangles reserved in the region, and the images that found no place.
pub struct Fill {
    pub spots: Seq<Option<Spot>>,
    pub reserved: Seq<(int, int, int, int)>,
    pub kept: Seq<usize>,
}

/// A plan whose last canvas is still being filled, with the rectangles
/// reserved on that canvas.
pub struct Shelf {
    pub plan: Plan,
    pub reserved: Seq<(int, int, int, int)>,
}

/// The width that an image takes with its margins.
pub open spec fn padded_width(asset: ImageAsset) -> int {
    asset.rgba.width + 2 * pad_of(asset).0
}

/// The height that an image takes with its margins.
pub open spec fn padded_height(asset: ImageAsset) -> int {
    asset.rgba.height + 2 * pad_of(asset).1
}

/// The rectangle that an image covers at a place.
pub open spec fn spot_rect(asset: ImageAsset, spot: Spot) -> (int, int, int, int) {
    (spot.x as int, spot.y as int, spot.x + asset.rgba.width, spot.y + asset.rgba.height)
}

/// The first image among the first `n` that repeats along y only.
pub open spec fn first_tiles_y(images: Seq<ImageAsset>, n: int) -> Option<usize>
    decreases n,
{
    if n <= 0 {
        None
    } else {
        match first_tiles_y(images, n - 1) {
            Some(i) => Some(i),
            None => if images[n - 1].tiles_y() {
                Some((n - 1) as usize)
            } else {
                None
            },
        }
    }
}

/// The plan after each of the first `n` images that repeats along both axes
/// got a canvas of its own size.
pub open spec fn with_dedicated(images: Seq<ImageAsset>, n: int) -> Plan
    decreases n,
{
    if n <= 0 {
        Plan { canvases: Seq::empty(), spots: Seq::new(images.len(), |i: int| None) }
    } else {
        let plan = with_dedicated(images, n - 1);
        let image = images[n - 1];
        if image.tiles_both() {
            Plan {
                canvases: plan.canvases.push(
                    CanvasPlan {
                        width: image.rgba.width,
                        height: image.rgba.height,
                        flags: TextureFlags::both(),
                    },
                ),
                spots: plan.spots.update(
                    n - 1,
                    Some(Spot { canvas: plan.canvases.len() as usize, x: 0, y: 0 }),
                ),
            }
        } else {
            plan
        }
    }
}

/// Whether one of the first `n` images repeats along x only and has the
/// given width.
pub open spec fn strip_opened(images: Seq<ImageAsset>, width: u32, n: int) -> bool
    decreases n,
{
    n > 0 && (strip_opened(images, width, n - 1) || (images[n - 1].tiles_x() && images[n
        - 1].rgba.width == width))
}

/// Whether image `i` is the first of its strip.
pub open spec fn starts_strip(images: Seq<ImageAsset>, i: int) -> bool {
    images[i].tiles_x() && !strip_opened(images, images[i].rgba.width, i)
}

/// The rows that the images of a strip among the first `n` take together,
/// each with its gap.
pub open spec fn strip_height(images: Seq<ImageAsset>, width: u32, n: int) -> int
    decreases n,
{
    if n <= 0 {
        0
    } else if images[n - 1].tiles_x() && images[n - 1].rgba.width == width {
        strip_height(images, width, n - 1) + images[n - 1].rgba.height + STRIP_GAP
    } else {
        strip_height(images, width, n - 1)
    }
}

/// The height of the canvas of a strip whose images and gaps take `total`
/// rows.
pub open spec fn strip_canvas_height(total: int) -> int {
    if next_pow2(total) < MIN_STRIP_HEIGHT {
        MIN_STRIP_HEIGHT as int
    } else {
        next_pow2(total)
    }
}

/// Whether a strip of the given width, whose images and gaps take `total`
/// rows, can be made.
pub open spec fn strip_fits(width: u32, total: int) -> bool {
    &&& width <= MAX_STRIP_SIDE
    &&& total <= MAX_STRIP_SIDE
    &&& byte_count(width, strip_canvas_height(total) as u32, 4) <= usize::MAX
}

/// The least height among the first `n` images that repeat along no axis;
/// `u32::MAX` where there is none.
pub open spec fn least_general_height(images: Seq<ImageAsset>, n: int) -> u32
    decreases n,
{
    if n <= 0 {
        u32::MAX
    } else {
        let least = least_general_height(images, n - 1);
        if images[n - 1].is_general() && images[n - 1].rgba.height < least {
            images[n - 1].rgba.height
        } else {
            least
        }
    }
}

/// The places after those of the first `n` images that belong to the strip
/// of the given width were stacked on the canvas, each below the ones before
/// it.
pub open spec fn stacked(
    images: Seq<ImageAsset>,
    width: u32,
    canvas: usize,
    spots: Seq<Option<Spot>>,
    n: int,
) -> Seq<Option<Spot>>
    decreases n,
{
    if n <= 0 {
        spots
    } else {
        let earlier = stacked(images, width, canvas, spots, n - 1);
        if images[n - 1].tiles_x() && images[n - 1].rgba.width == width {
            earlier.update(
                n - 1,
                Some(Spot { canvas, x: 0, y: strip_height(images, width, n - 1) as u32 }),
            )
        } else {
            earlier
        }
    }
}

/// Whether one of the first `n` images belongs to the strip of the given
/// width and has the given category.
pub open spec fn strip_has_category(
    images: Seq<ImageAsset>,
    width: u32,
    category: Seq<Seq<char>>,
    n: int,
) -> bool
    decreases n,
{
    n > 0 && (strip_has_category(images, width, category, n - 1) || (images[n - 1].tiles_x()
        && images[n - 1].rgba.width == width && images[n - 1].category() == category))
}

/// The state of filling the region below a strip after the first `m` of the
/// pending images were tried. The region belongs to `canvas`, starts at row
/// `base` and has the given extent. An image is tried where its category is
/// that of an image of the strip; it gets the corner that the allocator picks
/// for it with its margins, and is placed inside the margins.
pub open spec fn backfilled(
    images: Seq<ImageAsset>,
    width: u32,
    canvas: usize,
    extent: (int, int),
    base: int,
    pending: Seq<usize>,
    start: Fill,
    m: int,
) -> Fill
    decreases m,
{
    if m <= 0 {
        start
    } else {
        let fill = backfilled(images, width, canvas, extent, base, pending, start, m - 1);
        let i = pending[m - 1];
        let image = images[i as int];
        let corner = if strip_has_category(images, width, image.category(), images.len() as int) {
            try_corner(extent, fill.reserved, padded_width(image), padded_height(image))
        } else {
            None
        };
        match corner {
            Some(c) => Fill {
                spots: fill.spots.update(
                    i as int,
                    Some(
                        Spot {
                            canvas,
                            x: (c.0 + pad_of(image).0) as u32,
                            y: (base + c.1 + pad_of(image).1) as u32,
                        },
                    ),
                ),
                reserved: fill.reserved.push(
                    (c.0 as int, c.1 as int, c.0 + padded_width(image), c.1 + padded_height(image)),
                ),
                kept: fill.kept,
            },
            None => Fill { spots: fill.spots, reserved: fill.reserved, kept: fill.kept.push(i) },
        }
    }
}

/// The progress after the strip that image `i` starts was made: its canvas
/// is added, its images are stacked, and, where the rows left below them can
/// take the lowest of the images that repeat along no axis, pending images
/// of the strip's categories are placed there.
pub open spec fn after_strip(images: Seq<ImageAsset>, progress: Progress, i: int) -> Result<
    Progress,
    PackError,
> {
    let width = images[i].rgba.width;
    let total = strip_height(images, width, images.len() as int);
    if !strip_fits(width, total) {
        Err(PackError::StripTooLarge { image: i as usize })
    } else {
        let height = strip_canvas_height(total);
        let canvas = progress.plan.canvases.len() as usize;
        let canvases = progress.plan.canvases.push(
            CanvasPlan { width, height: height as u32, flags: TextureFlags::x_only() },
        );
        let spots = stacked(images, width, canvas, progress.plan.spots, images.len() as int);
        if height - total >= least_general_height(images, images.len() as int) {
            let fill = backfilled(
                images,
                width,
                canvas,
                (width as int, height - total),
                total,
                progress.pending,
                Fill { spots, reserved: Seq::empty(), kept: Seq::empty() },
                progress.pending.len() as int,
            );
            Ok(Progress { plan: Plan { canvases, spots: fill.spots }, pending: fill.kept })
        } else {
            Ok(Progress { plan: Plan { canvases, spots }, pending: progress.pending })
        }
    }
}

/// The progress after the strips that the first `n` images start were made.
pub open spec fn with_strips(images: Seq<ImageAsset>, n: int) -> Result<Progress, PackError>
    decreases n,
{
    if n <= 0 {
        Ok(
            Progress {
                plan: with_dedicated(images, images.len() as int),
                pending: general_order(images, images.len() as int),
            },
        )
    } else {
        match with_strips(images, n - 1) {
            Err(e) => Err(e),
            Ok(progress) => if starts_strip(images, n - 1) {
                after_strip(images, progress, n - 1)
            } else {
                Ok(progress)
            },
        }
    }
}

/// The plan after the first `m` of the pending images were placed on shared
/// canvases. A shared canvas is open from the start. An image gets the corner
/// that the allocator picks for it with its margins on the open canvas; where
/// it picks none, the next canvas is opened and the image with its margins
/// goes to its top left corner. The image is placed inside the margins.
pub open spec fn with_general(images: Seq<ImageAsset>, start: Progress, m: int) -> Result<
    Shelf,
    PackError,
>
    decreases m,
{
    let shared = CanvasPlan { width: ATLAS_SIDE, height: ATLAS_SIDE, flags: TextureFlags::none() };
    if m <= 0 {
        Ok(
            Shelf {
                plan: Plan { canvases: start.plan.canvases.push(shared), spots: start.plan.spots },
                reserved: Seq::empty(),
            },
        )
    } else {
        match with_general(images, start, m - 1) {
            Err(e) => Err(e),
            Ok(shelf) => {
                let i = start.pending[m - 1];
                let image = images[i as int];
                let w = padded_width(image);
                let h = padded_height(image);
                if w > ATLAS_SIDE || h > ATLAS_SIDE {
                    Err(PackError::ImageTooLarge { image: i })
                } else {
                    match try_corner(
                        (ATLAS_SIDE as int, ATLAS_SIDE as int),
                        shelf.reserved,
                        w,
                        h,
                    ) {
                        Some(c) => Ok(
                            Shelf {
                                plan: Plan {
                                    canvases: shelf.plan.canvases,
                                    spots: shelf.plan.spots.update(
                                        i as int,
                                        Some(
                                            Spot {
                                                canvas: (shelf.plan.canvases.len() - 1) as usize,
                                                x: (c.0 + pad_of(image).0) as u32,
                                                y: (c.1 + pad_of(image).1) as u32,
                                            },
                                        ),
                                    ),
                                },
                                reserved: shelf.reserved.push(
                                    (c.0 as int, c.1 as int, c.0 + w, c.1 + h),
                                ),
                            },
                        ),
                        None => Ok(
                            Shelf {
                                plan: Plan {
                                    canvases: shelf.plan.canvases.push(shared),
                                    spots: shelf.plan.spots.update(
                                        i as int,
                                        Some(
                                            Spot {
                                                canvas: shelf.plan.canvases.len() as usize,
                                                x: pad_of(image).0,
                                                y: pad_of(image).1,
                                            },
                                        ),
                                    ),
                                },
                                reserved: seq![(0, 0, w, h)],
                            },
                        ),
                    }
                }
            },
        }
    }
}

/// The plan for a set of images, or why there is none.
pub open spec fn planned(images: Seq<ImageAsset>) -> Result<Plan, PackError> {
    match first_tiles_y(images, images.len() as int) {
        Some(i) => Err(PackError::RepeatYUnsupported { image: i }),
        None => match with_strips(images, images.len() as int) {
            Err(e) => Err(e),
            Ok(progress) => match with_general(images, progress, progress.pending.len() as int) {
                Err(e) => Err(e),
                Ok(shelf) => Ok(shelf.plan),
            },
        },
    }
}

/// Why there is no plan for the images, where the error names a reason that
/// holds of them: the image that it names repeats along y only, or starts a
/// strip that cannot be made, or repeats along no axis and does not fit a
/// shared canvas with its margins.
pub open spec fn refused(images: Seq<ImageAsset>, e: PackError) -> bool {
    match e {
        PackError::RepeatYUnsupported { image } => image < images.len()
            && images[image as int].tiles_y(),
        PackError::StripTooLarge { image } => {
            &&& image < images.len()
            &&& starts_strip(images, image as int)
            &&& !strip_fits(
                images[image as int].rgba.width,
                strip_height(images, images[image as int].rgba.width, images.len() as int),
            )
        },
        PackError::ImageTooLarge { image } => {
            &&& image < images.len()
            &&& images[image as int].is_general()
            &&& (padded_width(images[image as int]) > ATLAS_SIDE || padded_height(
                images[image as int],
            ) > ATLAS_SIDE)
        },
    }
}

/// The rectangle that an image has to itself at a place: the one that it
/// covers, and for an image that repeats along no axis its margins around
/// that.
pub open spec fn own_rect(asset: ImageAsset, spot: Spot) -> (int, int, int, int) {
    if asset.is_general() {
        (
            spot.x - pad_of(asset).0,
            spot.y - pad_of(asset).1,
            spot.x + asset.rgba.width + pad_of(asset).0,
            spot.y + asset.rgba.height + pad_of(asset).1,
        )
    } else {
        spot_rect(asset, spot)
    }
}

/// Every place of the plan lies on one of its canvases and belongs to an
/// image that is packed. Every image lies inside its canvas, an image that
/// repeats along no axis with its margins; and no two images on one canvas
/// share a pixel, nor does an image share one with the margins of another.
pub open spec fn sound(images: Seq<ImageAsset>, plan: Plan) -> bool {
    &&& plan.spots.len() == images.len()
    &&& forall|i: int|
        0 <= i < images.len() && (#[trigger] plan.spots[i]).is_some() ==> {
            let spot = plan.spots[i].unwrap();
            &&& !images[i].no_pack
            &&& spot.canvas < plan.canvases.len()
            &&& rect_inside(
                own_rect(images[i], spot),
                (
                    plan.canvases[spot.canvas as int].width as int,
                    plan.canvases[spot.canvas as int].height as int,
                ),
            )
        }
    &&& forall|i: int, j: int|
        0 <= i < j < images.len() && (#[trigger] plan.spots[i]).is_some() && (
        #[trigger] plan.spots[j]).is_some() && plan.spots[i].unwrap().canvas
            == plan.spots[j].unwrap().canvas ==> rects_apart(
            own_rect(images[i], plan.spots[i].unwrap()),
            own_rect(images[j], plan.spots[j].unwrap()),
        )
}

/// The first rectangle lies inside the second.
pub open spec fn rect_within(inner: (int, int, int, int), outer: (int, int, int, int)) -> bool {
    outer.0 <= inner.0 && inner.2 <= outer.2 && outer.1 <= inner.1 && inner.3 <= outer.3
}

/// One of the reserved rectangles holds the given one.
pub open spec fn held(reserved: Seq<(int, int, int, int)>, rect: (int, int, int, int)) -> bool {
    exists|r: int| 0 <= r < reserved.len() && rect_within(rect, #[trigger] reserved[r])
}

/// The rectangle as seen from a region that starts at row `base`.
pub open spec fn lowered(rect: (int, int, int, int), base: int) -> (int, int, int, int) {
    (rect.0, rect.1 - base, rect.2, rect.3 - base)
}

/// Every image on the canvas lies above row `base`, or with its margins
/// inside one of the rectangles reserved in the region that starts there.
pub open spec fn region_kept(
    images: Seq<ImageAsset>,
    plan: Plan,
    canvas: usize,
    base: int,
    reserved: Seq<(int, int, int, int)>,
) -> bool {
    forall|i: int|
        0 <= i < images.len() && (#[trigger] plan.spots[i]).is_some()
            && plan.spots[i].unwrap().canvas == canvas ==> {
            let rect = own_rect(images[i], plan.spots[i].unwrap());
            rect.3 <= base || held(reserved, lowered(rect, base))
        }
}

/// What holds of the places by the kind of their images. An image that
/// repeats along both axes fills a canvas of its own size, which no other
/// image shares. An image of a strip stands at the left edge of a canvas of
/// its width and of the strip's height, in the row where the images of its
/// width that were found before it end with their gaps.
pub open spec fn tidy(images: Seq<ImageAsset>, plan: Plan) -> bool {
    &&& forall|k: int|
        0 <= k < images.len() && images[k].tiles_both() && (#[trigger] plan.spots[k]).is_some() ==> {
            let spot = plan.spots[k].unwrap();
            &&& spot.x == 0
            &&& spot.y == 0
            &&& plan.canvases[spot.canvas as int] == CanvasPlan {
                width: images[k].rgba.width,
                height: images[k].rgba.height,
                flags: TextureFlags::both(),
            }
        }
    &&& forall|j: int|
        0 <= j < images.len() && !images[j].tiles_both() && (#[trigger] plan.spots[j]).is_some()
            ==> plan.canvases[plan.spots[j].unwrap().canvas as int].flags != TextureFlags::both()
    &&& forall|k: int, j: int|
        0 <= k < j < images.len() && images[k].tiles_both() && images[j].tiles_both() && (
        #[trigger] plan.spots[k]).is_some() && (#[trigger] plan.spots[j]).is_some()
            ==> plan.spots[k].unwrap().canvas != plan.spots[j].unwrap().canvas
    &&& forall|i: int|
        0 <= i < images.len() && images[i].tiles_x() && (#[trigger] plan.spots[i]).is_some() ==> {
            let spot = plan.spots[i].unwrap();
            &&& spot.x == 0
            &&& spot.y == strip_height(images, images[i].rgba.width, i)
            &&& plan.canvases[spot.canvas as int].width == images[i].rgba.width
            &&& plan.canvases[spot.canvas as int].height == strip_canvas_height(
                strip_height(images, images[i].rgba.width, images.len() as int),
            )
            &&& plan.canvases[spot.canvas as int].flags == TextureFlags::x_only()
        }
    &&& forall|i: int, j: int|
        0 <= i < j < images.len() && images[i].tiles_x() && images[j].tiles_x()
            && images[i].rgba.width == images[j].rgba.width && (#[trigger] plan.spots[i]).is_some()
            && (#[trigger] plan.spots[j]).is_some() ==> {
            &&& plan.spots[i].unwrap().canvas == plan.spots[j].unwrap().canvas
            &&& plan.spots[i].unwrap().y + images[i].rgba.height + STRIP_GAP
                <= plan.spots[j].unwrap().y
        }
}

/// The number of images among the first `n` that repeat along both axes.
pub open spec fn count_both(images: Seq<ImageAsset>, n: int) -> int
    decreases n,
{
    if n <= 0 {
        0
    } else if images[n - 1].tiles_both() {
        count_both(images, n - 1) + 1
    } else {
        count_both(images, n - 1)
    }
}

/// The canvases that repeat along both axes are the first of the plan, and
/// as many as the images that repeat along both axes.
pub open spec fn dedicated_first(images: Seq<ImageAsset>, plan: Plan) -> bool {
    &&& count_both(images, images.len() as int) <= plan.canvases.len()
    &&& forall|c: int|
        0 <= c < plan.canvases.len() ==> ((#[trigger] plan.canvases[c]).flags
            == TextureFlags::both()) == (c < count_both(images, images.len() as int))
}

/// A canvas that does not repeat along both axes, added behind those that
/// do, leaves them the first of the plan.
pub proof fn lemma_push_shared(images: Seq<ImageAsset>, plan: Plan, canvas: CanvasPlan)
    requires
        dedicated_first(images, plan),
        canvas.flags != TextureFlags::both(),
    ensures
        dedicated_first(images, Plan { canvases: plan.canvases.push(canvas), spots: plan.spots }),
{
    let grown = plan.canvases.push(canvas);
    assert forall|c: int| 0 <= c < grown.len() implies ((#[trigger] grown[c]).flags
        == TextureFlags::both()) == (c < count_both(images, images.len() as int)) by {
        if c < plan.canvases.len() {
            assert(grown[c] == plan.canvases[c]);
        }
    }
}

/// Every canvas of the plan can be addressed on this machine.
pub open spec fn addressable(plan: Plan) -> bool {
    forall|k: int|
        0 <= k < plan.canvases.len() ==> byte_count(
            (#[trigger] plan.canvases[k]).width,
            plan.canvases[k].height,
            4,
        ) <= usize::MAX
}

/// A canvas that can be addressed leaves a plan addressable.
pub proof fn lemma_push_addressable(plan: Plan, canvas: CanvasPlan)
    requires
        addressable(plan),
        byte_count(canvas.width, canvas.height, 4) <= usize::MAX,
    ensures
        addressable(Plan { canvases: plan.canvases.push(canvas), spots: plan.spots }),
{
    let grown = plan.canvases.push(canvas);
    assert forall|k: int| 0 <= k < grown.len() implies byte_count(
        (#[trigger] grown[k]).width,
        grown[k].height,
        4,
    ) <= usize::MAX by {
        if k < plan.canvases.len() {
            assert(grown[k] == plan.canvases[k]);
        }
    }
}

/// A shared canvas can be addressed.
pub proof fn lemma_shared_addressable()
    ensures
        byte_count(ATLAS_SIDE, ATLAS_SIDE, 4) <= usize::MAX,
{
    assert(byte_count(ATLAS_SIDE, ATLAS_SIDE, 4) == 4194304) by (nonlinear_arith)
        requires
            ATLAS_SIDE == 1024,
    ;
    assert(usize::MAX >= 0xffff_ffff);
}

/// Every image of the set is well formed.
pub open spec fn all_wf(images: Seq<ImageAsset>) -> bool {
    forall|i: int| 0 <= i < images.len() ==> (#[trigger] images[i]).wf()
}

/// A canvas added to a sound and tidy plan leaves it so.
pub proof fn lemma_push_canvas(images: Seq<ImageAsset>, plan: Plan, canvas: CanvasPlan)
    requires
        sound(images, plan),
        tidy(images, plan),
    ensures
        sound(images, Plan { canvases: plan.canvases.push(canvas), spots: plan.spots }),
        tidy(images, Plan { canvases: plan.canvases.push(canvas), spots: plan.spots }),
{
    let grown = Plan { canvases: plan.canvases.push(canvas), spots: plan.spots };
    assert forall|i: int| 0 <= i < images.len() && (#[trigger] grown.spots[i]).is_some() implies {
        let spot = grown.spots[i].unwrap();
        &&& spot.canvas < grown.canvases.len()
        &&& grown.canvases[spot.canvas as int] == plan.canvases[spot.canvas as int]
    } by {
        assert(plan.spots[i].is_some());
    }
}

/// An image that repeats along no axis can take a place inside a rectangle
/// that the region's allocator has just handed out: the plan stays sound and
/// tidy, and the region keeps its images apart.
pub proof fn lemma_place_general(
    images: Seq<ImageAsset>,
    plan: Plan,
    canvas: usize,
    base: int,
    reserved: Seq<(int, int, int, int)>,
    extent: (int, int),
    i: int,
    spot: Spot,
    taken: (int, int, int, int),
)
    requires
        sound(images, plan),
        tidy(images, plan),
        region_kept(images, plan, canvas, base, reserved),
        0 <= i < images.len(),
        images[i].is_general(),
        canvas < plan.canvases.len(),
        plan.canvases[canvas as int].flags != TextureFlags::both(),
        0 <= base,
        extent.0 <= plan.canvases[canvas as int].width,
        base + extent.1 <= plan.canvases[canvas as int].height,
        rect_inside(taken, extent),
        forall|r: int| 0 <= r < reserved.len() ==> rects_apart(#[trigger] reserved[r], taken),
        spot.canvas == canvas,
        rect_within(lowered(own_rect(images[i], spot), base), taken),
    ensures
        sound(images, Plan { canvases: plan.canvases, spots: plan.spots.update(i, Some(spot)) }),
        tidy(images, Plan { canvases: plan.canvases, spots: plan.spots.update(i, Some(spot)) }),
        region_kept(
            images,
            Plan { canvases: plan.canvases, spots: plan.spots.update(i, Some(spot)) },
            canvas,
            base,
            reserved.push(taken),
        ),
{
    let after = Plan { canvases: plan.canvases, spots: plan.spots.update(i, Some(spot)) };
    let grown = reserved.push(taken);
    assert forall|j: int|
        0 <= j < images.len() && j != i && (#[trigger] after.spots[j]).is_some()
            && after.spots[j].unwrap().canvas == canvas implies rects_apart(
        own_rect(images[j], after.spots[j].unwrap()),
        own_rect(images[i], spot),
    ) && {
        let rect = own_rect(images[j], after.spots[j].unwrap());
        rect.3 <= base || held(grown, lowered(rect, base))
    } by {
        assert(plan.spots[j].is_some());
        let rect = own_rect(images[j], plan.spots[j].unwrap());
        if rect.3 > base {
            let r = choose|r: int|
                0 <= r < reserved.len() && rect_within(lowered(rect, base), #[trigger] reserved[r]);
            assert(rects_apart(reserved[r], taken));
            assert(grown[r] == reserved[r]);
        }
    }
    assert(grown[reserved.len() as int] == taken);
    assert(held(grown, lowered(own_rect(images[i], spot), base)));
    assert forall|a: int, b: int|
        0 <= a < b < images.len() && (#[trigger] after.spots[a]).is_some() && (
        #[trigger] after.spots[b]).is_some() && after.spots[a].unwrap().canvas
            == after.spots[b].unwrap().canvas implies rects_apart(
        own_rect(images[a], after.spots[a].unwrap()),
        own_rect(images[b], after.spots[b].unwrap()),
    ) by {
        if a != i && b != i {
            assert(plan.spots[a].is_some() && plan.spots[b].is_some());
        }
    }
    assert forall|j: int| 0 <= j < images.len() && (#[trigger] after.spots[j]).is_some() implies {
        let s = after.spots[j].unwrap();
        &&& !images[j].no_pack
        &&& s.canvas < after.canvases.len()
        &&& rect_inside(
            own_rect(images[j], s),
            (
                after.canvases[s.canvas as int].width as int,
                after.canvases[s.canvas as int].height as int,
            ),
        )
    } by {
        if j != i {
            assert(plan.spots[j].is_some());
        }
    }
    assert(sound(images, after));
    assert(tidy(images, after)) by {
        assert forall|j: int| 0 <= j < images.len() && j != i implies (
        #[trigger] after.spots[j]) == plan.spots[j] by {}
    }
}

} // verus!
