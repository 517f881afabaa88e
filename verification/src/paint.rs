//! Draws the canvases of a plan: every image is copied to its place.

use crate::allocator::rects_apart;
use crate::bitmap::{blitted, byte_count, lemma_blitted_at, lemma_buffer_bounds, Bitmap};
use crate::gather::ImageAsset;
use crate::layout::{addressable, all_wf, sound, spot_rect, CanvasPlan, Layout, Plan};
use crate::pack::TextureFlags;
use vstd::prelude::*;

verus! {

/// The bytes of a canvas on which nothing is drawn: every byte is 0.
pub open spec fn blank(canvas: CanvasPlan) -> Seq<u8> {
    Seq::new(byte_count(canvas.width, canvas.height, 4) as nat, |i: int| 0u8)
}

/// The bytes of canvas `k` after those of the first `n` images that have
/// their place on it were drawn, in the order of the images.
pub open spec fn painted(images: Seq<ImageAsset>, plan: Plan, k: int, n: int) -> Seq<u8>
    decreases n,
{
    if n <= 0 {
        blank(plan.canvases[k])
    } else {
        let earlier = painted(images, plan, k, n - 1);
        match plan.spots[n - 1] {
            Some(spot) => if spot.canvas == k {
                blitted(
                    earlier,
                    plan.canvases[k].width * 4,
                    images[n - 1].rgba.data@,
                    images[n - 1].rgba.width * 4,
                    images[n - 1].rgba.height as int,
                    spot.x * 4,
                    spot.y as int,
                )
            } else {
                earlier
            },
            None => earlier,
        }
    }
}

/// The textures are the canvases of the plan, each with its flags and with
/// the images of the plan drawn on it.
pub open spec fn shows(
    atlases: Seq<(Bitmap, TextureFlags)>,
    images: Seq<ImageAsset>,
    plan: Plan,
) -> bool {
    &&& atlases.len() == plan.canvases.len()
    &&& forall|k: int|
        0 <= k < atlases.len() ==> {
            let texture = (#[trigger] atlases[k]).0;
            &&& texture.wf()
            &&& texture.channels == 4
            &&& texture.width == plan.canvases[k].width
            &&& texture.height == plan.canvases[k].height
            &&& texture.data@ == painted(images, plan, k, images.len() as int)
            &&& atlases[k].1 == plan.canvases[k].flags
        }
}

/// Draws canvas `k` of a plan.
pub fn paint_canvas(images: &Vec<ImageAsset>, layout: &Layout, k: usize) -> (canvas: Bitmap)
    requires
        all_wf(images@),
        sound(images@, layout@),
        addressable(layout@),
        k < layout@.canvases.len(),
    ensures
        canvas.wf(),
        canvas.channels == 4,
        canvas.width == layout@.canvases[k as int].width,
        canvas.height == layout@.canvases[k as int].height,
        canvas.data@ == painted(images@, layout@, k as int, images@.len() as int),
{
    let size = layout.canvases[k];
    let mut canvas = Bitmap::new(size.width, size.height, 4);
    let mut n: usize = 0;
    while n < images.len()
        invariant
            n <= images@.len(),
            all_wf(images@),
            sound(images@, layout@),
            k < layout@.canvases.len(),
            size == layout@.canvases[k as int],
            canvas.wf(),
            canvas.channels == 4,
            canvas.width == size.width,
            canvas.height == size.height,
            canvas.data@ == painted(images@, layout@, k as int, n as int),
        decreases images@.len() - n,
    {
        match layout.spots[n] {
            Some(spot) => {
                if spot.canvas == k {
                    assert(images@[n as int].wf());
                    assert(layout@.spots[n as int].is_some());
                    canvas.blit(&images[n].rgba, spot.x, spot.y);
                }
            },
            None => {},
        }
        n += 1;
    }
    canvas
}

/// Draws the canvases of a plan.
pub fn paint(images: &Vec<ImageAsset>, layout: &Layout) -> (atlases: Vec<(Bitmap, TextureFlags)>)
    requires
        all_wf(images@),
        sound(images@, layout@),
        addressable(layout@),
    ensures
        shows(atlases@, images@, layout@),
{
    let mut atlases: Vec<(Bitmap, TextureFlags)> = Vec::new();
    let mut k: usize = 0;
    while k < layout.canvases.len()
        invariant
            k <= layout@.canvases.len(),
            all_wf(images@),
            sound(images@, layout@),
            addressable(layout@),
            atlases@.len() == k,
            forall|c: int|
                0 <= c < k ==> {
                    let texture = (#[trigger] atlases@[c]).0;
                    &&& texture.wf()
                    &&& texture.channels == 4
                    &&& texture.width == layout@.canvases[c].width
                    &&& texture.height == layout@.canvases[c].height
                    &&& texture.data@ == painted(images@, layout@, c, images@.len() as int)
                    &&& atlases@[c].1 == layout@.canvases[c].flags
                },
        decreases layout@.canvases.len() - k,
    {
        let canvas = paint_canvas(images, layout, k);
        atlases.push((canvas, layout.canvases[k].flags));
        k += 1;
    }
    atlases
}

/// A canvas keeps its number of bytes while images are drawn on it.
pub proof fn lemma_painted_len(images: Seq<ImageAsset>, plan: Plan, k: int, n: int)
    ensures
        painted(images, plan, k, n).len() == blank(plan.canvases[k]).len(),
    decreases n,
{
    if n > 0 {
        lemma_painted_len(images, plan, k, n - 1);
    }
}

/// The position on a canvas of `width` columns of byte `c` of the pixel in
/// column `x` of row `y`.
pub open spec fn byte_at(width: u32, x: int, y: int, c: int) -> int {
    y * (width * 4) + (x * 4 + c)
}

/// Once image `i` is drawn, its canvas shows the image at its place, however
/// many of the images after it are drawn as well.
proof fn lemma_image_stays(
    images: Seq<ImageAsset>,
    plan: Plan,
    i: int,
    n: int,
    x: int,
    y: int,
    c: int,
)
    requires
        all_wf(images),
        sound(images, plan),
        0 <= i < n <= images.len(),
        plan.spots[i] is Some,
        0 <= x < images[i].rgba.width,
        0 <= y < images[i].rgba.height,
        0 <= c < 4,
    ensures
        ({
            let spot = plan.spots[i].unwrap();
            let canvas = plan.canvases[spot.canvas as int];
            let at = byte_at(canvas.width, spot.x + x, spot.y + y, c);
            &&& 0 <= at < painted(images, plan, spot.canvas as int, n).len()
            &&& painted(images, plan, spot.canvas as int, n)[at] == images[i].rgba.data@[byte_at(
                images[i].rgba.width,
                x,
                y,
                c,
            )]
        }),
    decreases n,
{
    let spot = plan.spots[i].unwrap();
    let k = spot.canvas as int;
    let canvas = plan.canvases[k];
    let image = images[i];
    let stride = canvas.width * 4;
    let row = spot.y + y;
    let byte = (spot.x + x) * 4 + c;
    assert(plan.spots[i].is_some());
    assert(image.wf());
    lemma_painted_len(images, plan, k, n);
    lemma_painted_len(images, plan, k, n - 1);
    lemma_buffer_bounds(canvas.width, canvas.height, 4);
    assert(row * stride + stride <= canvas.height * stride) by (nonlinear_arith)
        requires
            0 <= row < canvas.height,
            0 <= stride,
    ;
    let latest = images[n - 1];
    if n - 1 == i {
        lemma_blitted_at(
            painted(images, plan, k, n - 1),
            stride,
            image.rgba.data@,
            image.rgba.width * 4,
            image.rgba.height as int,
            spot.x * 4,
            spot.y as int,
            row,
            byte,
        );
    } else {
        lemma_image_stays(images, plan, i, n - 1, x, y, c);
        match plan.spots[n - 1] {
            Some(other) => {
                if other.canvas == spot.canvas {
                    assert(plan.spots[n - 1].is_some());
                    assert(rects_apart(spot_rect(image, spot), spot_rect(latest, other)));
                    lemma_blitted_at(
                        painted(images, plan, k, n - 1),
                        stride,
                        latest.rgba.data@,
                        latest.rgba.width * 4,
                        latest.rgba.height as int,
                        other.x * 4,
                        other.y as int,
                        row,
                        byte,
                    );
                }
            },
            None => {},
        }
    }
}

/// The canvases show every image at its place: each byte of each pixel of an
/// image that has a place is the byte of its canvas at that place.
pub proof fn lemma_canvas_shows_image(
    images: Seq<ImageAsset>,
    plan: Plan,
    i: int,
    x: int,
    y: int,
    c: int,
)
    requires
        all_wf(images),
        sound(images, plan),
        0 <= i < images.len(),
        plan.spots[i] is Some,
        0 <= x < images[i].rgba.width,
        0 <= y < images[i].rgba.height,
        0 <= c < 4,
    ensures
        ({
            let spot = plan.spots[i].unwrap();
            let canvas = plan.canvases[spot.canvas as int];
            let shown = painted(images, plan, spot.canvas as int, images.len() as int);
            let at = byte_at(canvas.width, spot.x + x, spot.y + y, c);
            &&& 0 <= at < shown.len()
            &&& shown[at] == images[i].rgba.data@[byte_at(images[i].rgba.width, x, y, c)]
        }),
{
    lemma_image_stays(images, plan, i, images.len() as int, x, y, c);
}

} // verus!
