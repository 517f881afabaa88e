//! Plans the canvases of a build and the place of each image on them.

use crate::allocator::rects_apart;
use crate::gather::ImageAsset;
use crate::layout::{
    addressable, all_wf, count_both, dedicated_first, first_tiles_y, lemma_push_addressable, lemma_push_canvas, own_rect,
    padded_height, padded_width, planned, refused, sound, spot_rect, strip_canvas_height,
    strip_height, tidy, with_dedicated,
    CanvasPlan, Layout, PackError, Plan, Spot, STRIP_GAP,
};
use crate::order::sort_general;
use crate::pack::{pad_of, TextureFlags};
use crate::shelves::place_general;
use crate::strips::{lemma_strip_stays_open, place_strips};
use vstd::prelude::*;

verus! {

/// Finds the first image that repeats along y only.
pub fn find_tiles_y(images: &Vec<ImageAsset>) -> (r: Option<usize>)
    ensures
        r == first_tiles_y(images@, images@.len() as int),
        r is None ==> forall|j: int| 0 <= j < images@.len() ==> !(#[trigger] images@[j]).tiles_y(),
        r matches Some(i) ==> {
            &&& i < images@.len()
            &&& images@[i as int].tiles_y()
            &&& forall|j: int| 0 <= j < i ==> !(#[trigger] images@[j]).tiles_y()
        },
{
    let mut n: usize = 0;
    while n < images.len()
        invariant
            n <= images@.len(),
            first_tiles_y(images@, n as int) is None,
            forall|j: int| 0 <= j < n ==> !(#[trigger] images@[j]).tiles_y(),
        decreases images@.len() - n,
    {
        let image = &images[n];
        if !image.no_pack && !image.repeat_x && image.repeat_y {
            proof {
                lemma_tiles_y_found(images@, n as int + 1, images@.len() as int);
            }
            return Some(n);
        }
        n += 1;
    }
    None
}

/// The first image that repeats along y only stays the first however many
/// more images are looked at.
pub proof fn lemma_tiles_y_found(images: Seq<ImageAsset>, m: int, n: int)
    requires
        0 <= m <= n,
        first_tiles_y(images, m) is Some,
    ensures
        first_tiles_y(images, n) == first_tiles_y(images, m),
    decreases n - m,
{
    if m < n {
        lemma_tiles_y_found(images, m, n - 1);
    }
}

/// Every image that is packed has a place, and no other image has one.
pub open spec fn complete(images: Seq<ImageAsset>, plan: Plan) -> bool {
    &&& plan.spots.len() == images.len()
    &&& forall|j: int|
        0 <= j < images.len() ==> (#[trigger] plan.spots[j]).is_some() == !images[j].no_pack
}

/// What a planning result holds.
pub open spec fn outcome(r: Result<Layout, PackError>) -> Result<Plan, PackError> {
    match r {
        Ok(layout) => Ok(layout@),
        Err(e) => Err(e),
    }
}

/// Plans the canvases of a build and the place of each image on them.
///
/// Every image that is packed gets a place inside a canvas, apart from the
/// other images there; an image that repeats along no axis keeps its margins
/// free as well. There is no plan where an image repeats along y only, where a strip is
/// too large, or where an image that is left for the shared canvases does
/// not fit one with its margins. The error names such an image, so there is
/// a plan wherever the images hold none.
pub fn plan_layout(images: &Vec<ImageAsset>) -> (r: Result<Layout, PackError>)
    requires
        all_wf(images@),
    ensures
        outcome(r) == planned(images@),
        r matches Err(e) ==> refused(images@, e),
        (forall|e: PackError| !refused(images@, e)) ==> r is Ok,
        r matches Ok(layout) ==> {
            &&& sound(images@, layout@)
            &&& tidy(images@, layout@)
            &&& complete(images@, layout@)
            &&& addressable(layout@)
            &&& dedicated_first(images@, layout@)
        },
{
    match find_tiles_y(images) {
        Some(i) => {
            assert(refused(images@, PackError::RepeatYUnsupported { image: i }));
            return Err(PackError::RepeatYUnsupported { image: i });
        },
        None => {},
    }
    let mut layout = place_dedicated(images);
    let mut pending = sort_general(images);
    match place_strips(images, &mut layout, &mut pending) {
        Err(e) => {
            assert(refused(images@, e));
            return Err(e);
        },
        Ok(_) => {},
    }
    let ghost stripped = layout@;
    let count = images.len();
    match place_general(images, &mut layout, &pending) {
        Err(e) => {
            assert(refused(images@, e));
            return Err(e);
        },
        Ok(_) => {},
    }
    proof {
        assert forall|j: int| 0 <= j < images@.len() implies (#[trigger] layout@.spots[j]).is_some()
            == !images@[j].no_pack by {
            let image = images@[j];
            assert(j < count);
            if image.no_pack {
                assert(!layout@.spots[j].is_some());
            } else if image.is_general() {
                if stripped.spots[j].is_some() {
                    assert(layout@.spots[j].is_some());
                } else {
                    assert(pending@.contains(j as usize));
                    let k = choose|k: int| 0 <= k < pending@.len() && pending@[k] == j as usize;
                    assert(layout@.spots[pending@[k] as int].is_some());
                }
            } else if image.tiles_x() {
                lemma_strip_stays_open(images@, image.rgba.width, j + 1, images@.len() as int);
                assert(stripped.spots[j].is_some());
                assert(layout@.spots[j].is_some());
            } else {
                assert(!image.tiles_y());
                assert(image.tiles_both());
                assert(stripped.spots[j].is_some());
                assert(layout@.spots[j].is_some());
            }
        }
    }
    Ok(layout)
}

/// Packing is a function of the images: two plannings of the same images end
/// alike, and where they end with a plan, the two plans have the same
/// canvases, of the same sizes, and give every image the same place.
pub proof fn lemma_planning_is_deterministic(
    images: Seq<ImageAsset>,
    first: Result<Layout, PackError>,
    second: Result<Layout, PackError>,
)
    requires
        outcome(first) == planned(images),
        outcome(second) == planned(images),
    ensures
        first is Ok == second is Ok,
        first is Err ==> first == second,
        first is Ok ==> {
            &&& first.unwrap()@.canvases.len() == second.unwrap()@.canvases.len()
            &&& first.unwrap()@.canvases == second.unwrap()@.canvases
            &&& first.unwrap()@.spots == second.unwrap()@.spots
        },
{
}

/// Every image with a place lies inside its canvas, and two images on one
/// canvas share no pixel.
pub proof fn lemma_places_inside_and_apart(images: Seq<ImageAsset>, plan: Plan, i: int, j: int)
    requires
        sound(images, plan),
        0 <= i < images.len(),
        0 <= j < images.len(),
        i != j,
        plan.spots[i] is Some,
        plan.spots[j] is Some,
    ensures
        plan.spots[i].unwrap().canvas < plan.canvases.len(),
        plan.spots[i].unwrap().x + images[i].rgba.width
            <= plan.canvases[plan.spots[i].unwrap().canvas as int].width,
        plan.spots[i].unwrap().y + images[i].rgba.height
            <= plan.canvases[plan.spots[i].unwrap().canvas as int].height,
        plan.spots[i].unwrap().canvas == plan.spots[j].unwrap().canvas ==> rects_apart(
            spot_rect(images[i], plan.spots[i].unwrap()),
            spot_rect(images[j], plan.spots[j].unwrap()),
        ),
{
    if i < j {
        assert(plan.spots[i].is_some() && plan.spots[j].is_some());
    } else {
        assert(plan.spots[j].is_some() && plan.spots[i].is_some());
    }
}

/// An image that repeats along no axis keeps its margins free: with them it
/// lies inside its canvas, and it shares no pixel with another such image and
/// its margins on that canvas, nor with any other image there.
pub proof fn lemma_margins_stay_free(images: Seq<ImageAsset>, plan: Plan, i: int, j: int)
    requires
        sound(images, plan),
        0 <= i < images.len(),
        0 <= j < images.len(),
        i != j,
        images[i].is_general(),
        plan.spots[i] is Some,
        plan.spots[j] is Some,
    ensures
        plan.spots[i].unwrap().x >= pad_of(images[i]).0,
        plan.spots[i].unwrap().y >= pad_of(images[i]).1,
        plan.spots[i].unwrap().x - pad_of(images[i]).0 + padded_width(images[i])
            <= plan.canvases[plan.spots[i].unwrap().canvas as int].width,
        plan.spots[i].unwrap().y - pad_of(images[i]).1 + padded_height(images[i])
            <= plan.canvases[plan.spots[i].unwrap().canvas as int].height,
        plan.spots[i].unwrap().canvas == plan.spots[j].unwrap().canvas ==> rects_apart(
            own_rect(images[i], plan.spots[i].unwrap()),
            own_rect(images[j], plan.spots[j].unwrap()),
        ) && rects_apart(
            own_rect(images[i], plan.spots[i].unwrap()),
            spot_rect(images[j], plan.spots[j].unwrap()),
        ),
{
    if i < j {
        assert(plan.spots[i].is_some() && plan.spots[j].is_some());
    } else {
        assert(plan.spots[j].is_some() && plan.spots[i].is_some());
    }
}

/// Two images that repeat along x only and have the same width stand on the
/// same canvas, which has their width and the height of their strip and
/// repeats along x; both stand at its left edge, each in the row where the
/// images of the strip before it end with their gaps, so that the one that
/// was found first ends above the other, with the gap between them.
pub proof fn lemma_strip_is_stacked(images: Seq<ImageAsset>, plan: Plan, i: int, j: int)
    requires
        sound(images, plan),
        tidy(images, plan),
        complete(images, plan),
        0 <= i < j < images.len(),
        images[i].tiles_x(),
        images[j].tiles_x(),
        images[i].rgba.width == images[j].rgba.width,
    ensures
        plan.spots[i] is Some,
        plan.spots[j] is Some,
        plan.spots[i].unwrap().canvas == plan.spots[j].unwrap().canvas,
        plan.canvases[plan.spots[i].unwrap().canvas as int].width == images[i].rgba.width,
        plan.canvases[plan.spots[i].unwrap().canvas as int].flags == TextureFlags::x_only(),
        plan.canvases[plan.spots[i].unwrap().canvas as int].height == strip_canvas_height(
            strip_height(images, images[i].rgba.width, images.len() as int),
        ),
        plan.spots[i].unwrap().x == 0,
        plan.spots[j].unwrap().x == 0,
        plan.spots[i].unwrap().y == strip_height(images, images[i].rgba.width, i),
        plan.spots[j].unwrap().y == strip_height(images, images[j].rgba.width, j),
        plan.spots[i].unwrap().y + images[i].rgba.height + STRIP_GAP <= plan.spots[j].unwrap().y,
{
    assert(plan.spots[i].is_some() && plan.spots[j].is_some());
}

/// An image that repeats along both axes fills a canvas of its own size that
/// repeats along both axes, and no other image has its place on that canvas.
pub proof fn lemma_dedicated_canvas(images: Seq<ImageAsset>, plan: Plan, k: int, j: int)
    requires
        sound(images, plan),
        tidy(images, plan),
        complete(images, plan),
        0 <= k < images.len(),
        0 <= j < images.len(),
        images[k].tiles_both(),
        j != k,
        plan.spots[j] is Some,
    ensures
        plan.spots[k] is Some,
        plan.spots[k].unwrap().x == 0,
        plan.spots[k].unwrap().y == 0,
        plan.canvases[plan.spots[k].unwrap().canvas as int] == (CanvasPlan {
            width: images[k].rgba.width,
            height: images[k].rgba.height,
            flags: TextureFlags::both(),
        }),
        plan.spots[j].unwrap().canvas != plan.spots[k].unwrap().canvas,
{
    assert(plan.spots[k].is_some() && plan.spots[j].is_some());
}

/// Gives each image that repeats along both axes a canvas of its own size.
fn place_dedicated(images: &Vec<ImageAsset>) -> (layout: Layout)
    requires
        all_wf(images@),
    ensures
        layout@ == with_dedicated(images@, images@.len() as int),
        sound(images@, layout@),
        tidy(images@, layout@),
        addressable(layout@),
        dedicated_first(images@, layout@),
        forall|j: int|
            0 <= j < images@.len() ==> (#[trigger] layout@.spots[j]).is_some()
                == images@[j].tiles_both(),
{
    let mut spots: Vec<Option<Spot>> = Vec::new();
    while spots.len() < images.len()
        invariant
            spots@.len() <= images@.len(),
            forall|j: int| 0 <= j < spots@.len() ==> (#[trigger] spots@[j]).is_none(),
        decreases images@.len() - spots@.len(),
    {
        spots.push(None);
    }
    assert(spots@ =~= Seq::new(images@.len(), |i: int| None::<Spot>));
    let mut layout = Layout { canvases: Vec::new(), spots };
    let mut n: usize = 0;
    while n < images.len()
        invariant
            n <= images@.len(),
            all_wf(images@),
            layout@ == with_dedicated(images@, n as int),
            sound(images@, layout@),
            tidy(images@, layout@),
            addressable(layout@),
            layout@.canvases.len() == count_both(images@, n as int),
            forall|c: int|
                0 <= c < layout@.canvases.len() ==> (#[trigger] layout@.canvases[c]).flags
                    == TextureFlags::both(),
            forall|j: int|
                0 <= j < images@.len() ==> (#[trigger] layout@.spots[j]).is_some() == (j < n
                    && images@[j].tiles_both()),
        decreases images@.len() - n,
    {
        let image = &images[n];
        if !image.no_pack && image.repeat_x && image.repeat_y {
            let ghost before = layout@;
            let canvas = layout.canvases.len();
            let bytes = image.rgba.data.len();
            assert(image.wf());
            layout.canvases.push(
                CanvasPlan {
                    width: image.rgba.width,
                    height: image.rgba.height,
                    flags: TextureFlags::repeat(),
                },
            );
            layout.spots.set(n, Some(Spot { canvas, x: 0, y: 0 }));
            proof {
                lemma_push_canvas(images@, before, layout@.canvases[canvas as int]);
                lemma_push_addressable(before, layout@.canvases[canvas as int]);
                assert forall|j: int| 0 <= j < images@.len() && j != n implies (
                #[trigger] layout@.spots[j]) == before.spots[j] by {}
                assert forall|j: int|
                    0 <= j < images@.len() && j != n && (
                    #[trigger] layout@.spots[j]).is_some() implies layout@.spots[j].unwrap().canvas
                    < canvas by {
                    assert(before.spots[j].is_some());
                }
                assert(images@[n as int].wf());
            }
        }
        n += 1;
    }
    layout
}

} // verus!
