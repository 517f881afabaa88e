//! Places images on the canvases that they share, and in the room that is
//! left below a strip.

use crate::allocator::{try_corner, Region};
use crate::gather::ImageAsset;
use crate::layout::{
    addressable, all_wf, dedicated_first, lemma_place_general, lemma_push_shared, lemma_push_addressable, lemma_push_canvas,
    lemma_shared_addressable, padded_height, padded_width, refused, region_kept, sound, tidy,
    with_general, CanvasPlan, Layout, PackError, Plan, Progress, Shelf, Spot, ATLAS_SIDE,
};
use crate::order::all_general;
use crate::pack::{pad_for_image_asset, pad_of, TextureFlags};
use vstd::prelude::*;

verus! {

/// No image loses its place from the first plan to the second.
pub open spec fn keeps_places(before: Plan, after: Plan) -> bool {
    &&& after.spots.len() == before.spots.len()
    &&& forall|j: int|
        0 <= j < before.spots.len() && (#[trigger] before.spots[j]).is_some()
            ==> after.spots[j].is_some()
}

/// Tries to place image `i` in a region of a canvas that starts at row `base`
/// of the canvas. The image is placed where the region has room for it with
/// its margins.
pub(crate) fn place_in_region(
    images: &Vec<ImageAsset>,
    layout: &mut Layout,
    region: &mut Region,
    i: usize,
    canvas: usize,
    base: u32,
) -> (placed: bool)
    requires
        all_wf(images@),
        i < images@.len(),
        images@[i as int].is_general(),
        sound(images@, old(layout)@),
        tidy(images@, old(layout)@),
        old(region).wf(),
        region_kept(images@, old(layout)@, canvas, base as int, old(region).taken()),
        canvas < old(layout)@.canvases.len(),
        old(layout)@.canvases[canvas as int].flags != TextureFlags::both(),
        old(region).width <= old(layout)@.canvases[canvas as int].width,
        base + old(region).height <= old(layout)@.canvases[canvas as int].height,
    ensures
        final(region).wf(),
        final(region).width == old(region).width,
        final(region).height == old(region).height,
        final(layout)@.canvases == old(layout)@.canvases,
        ({
            let image = images@[i as int];
            let w = padded_width(image);
            let h = padded_height(image);
            match try_corner(old(region).extent(), old(region).taken(), w, h) {
                Some(c) => {
                    &&& placed
                    &&& final(layout)@.spots == old(layout)@.spots.update(
                        i as int,
                        Some(
                            Spot {
                                canvas,
                                x: (c.0 + pad_of(image).0) as u32,
                                y: (base + c.1 + pad_of(image).1) as u32,
                            },
                        ),
                    )
                    &&& final(region).taken() == old(region).taken().push(
                        (c.0 as int, c.1 as int, c.0 + w, c.1 + h),
                    )
                    &&& (old(region).taken().len() == 0 ==> c == (0u32, 0u32))
                },
                None => {
                    &&& !placed
                    &&& final(layout)@ == old(layout)@
                    &&& final(region).taken() == old(region).taken()
                    &&& (old(region).taken().len() == 0 ==> w > old(region).width
                        || h > old(region).height)
                },
            }
        }),
        sound(images@, final(layout)@),
        tidy(images@, final(layout)@),
        region_kept(images@, final(layout)@, canvas, base as int, final(region).taken()),
        keeps_places(old(layout)@, final(layout)@),
{
    let image = &images[i];
    assert(image.wf());
    let (pad_x, pad_y) = pad_for_image_asset(image);
    let w: u64 = image.rgba.width as u64 + 2 * (pad_x as u64);
    let h: u64 = image.rgba.height as u64 + 2 * (pad_y as u64);
    let ghost before = layout@;
    let ghost held_before = region.taken();
    match region.place(w, h) {
        None => false,
        Some(corner) => {
            let spot = Spot { canvas, x: corner.0 + pad_x, y: base + corner.1 + pad_y };
            layout.spots.set(i, Some(spot));
            proof {
                let taken = (corner.0 as int, corner.1 as int, corner.0 + w, corner.1 + h);
                lemma_place_general(
                    images@,
                    before,
                    canvas,
                    base as int,
                    held_before,
                    region.extent(),
                    i as int,
                    spot,
                    taken,
                );
            }
            true
        },
    }
}

/// Places the pending images on shared canvases, opening the next canvas
/// whenever the open one has no room for an image.
pub(crate) fn place_general(images: &Vec<ImageAsset>, layout: &mut Layout, pending: &Vec<usize>) -> (r:
    Result<(), PackError>)
    requires
        all_wf(images@),
        all_general(images@, pending@),
        sound(images@, old(layout)@),
        tidy(images@, old(layout)@),
        addressable(old(layout)@),
        dedicated_first(images@, old(layout)@),
    ensures
        match r {
            Ok(_) => {
                &&& addressable(final(layout)@)
                &&& dedicated_first(images@, final(layout)@)
                &&& with_general(
                    images@,
                    Progress { plan: old(layout)@, pending: pending@ },
                    pending@.len() as int,
                ) matches Ok(shelf)
                &&& shelf.plan == final(layout)@
                &&& sound(images@, final(layout)@)
                &&& tidy(images@, final(layout)@)
                &&& keeps_places(old(layout)@, final(layout)@)
                &&& forall|k: int|
                    0 <= k < pending@.len() ==> final(layout)@.spots[(#[trigger] pending@[k]) as int].is_some()
            },
            Err(e) => refused(images@, e) && with_general(
                images@,
                Progress { plan: old(layout)@, pending: pending@ },
                pending@.len() as int,
            ) == Err::<Shelf, PackError>(e),
        },
{
    let ghost start = Progress { plan: layout@, pending: pending@ };
    let ghost first = layout@;
    let shared = CanvasPlan {
        width: ATLAS_SIDE,
        height: ATLAS_SIDE,
        flags: TextureFlags::no_repeat(),
    };
    proof {
        lemma_push_canvas(images@, first, shared);
        lemma_shared_addressable();
        lemma_push_addressable(first, shared);
        lemma_push_shared(images@, first, shared);
    }
    let mut open = layout.canvases.len();
    layout.canvases.push(shared);
    let mut region = Region::new(ATLAS_SIDE, ATLAS_SIDE);
    proof {
        lemma_fresh_region(images@, first, shared, open, region.taken());
    }
    let mut m: usize = 0;
    while m < pending.len()
        invariant
            m <= pending@.len(),
            all_wf(images@),
            all_general(images@, pending@),
            start == (Progress { plan: first, pending: pending@ }),
            first == old(layout)@,
            shared == (CanvasPlan {
                width: ATLAS_SIDE,
                height: ATLAS_SIDE,
                flags: TextureFlags::none(),
            }),
            with_general(images@, start, m as int) == Ok::<Shelf, PackError>(
                Shelf { plan: layout@, reserved: region.taken() },
            ),
            region.wf(),
            region.width == ATLAS_SIDE,
            region.height == ATLAS_SIDE,
            open + 1 == layout@.canvases.len(),
            layout@.canvases.last() == shared,
            addressable(layout@),
            dedicated_first(images@, layout@),
            sound(images@, layout@),
            tidy(images@, layout@),
            region_kept(images@, layout@, open, 0, region.taken()),
            keeps_places(first, layout@),
            forall|k: int|
                0 <= k < m ==> layout@.spots[(#[trigger] pending@[k]) as int].is_some(),
        decreases pending@.len() - m,
    {
        let i = pending[m];
        let image = &images[i];
        assert(image.wf());
        let (pad_x, pad_y) = pad_for_image_asset(image);
        let w: u64 = image.rgba.width as u64 + 2 * (pad_x as u64);
        let h: u64 = image.rgba.height as u64 + 2 * (pad_y as u64);
        if w > ATLAS_SIDE as u64 || h > ATLAS_SIDE as u64 {
            proof {
                assert(with_general(images@, start, m as int + 1) == Err::<Shelf, PackError>(
                    PackError::ImageTooLarge { image: i },
                ));
                lemma_general_fails(images@, start, m as int + 1, pending@.len() as int);
            }
            return Err(PackError::ImageTooLarge { image: i });
        }
        let placed = place_in_region(images, layout, &mut region, i, open, 0);
        if !placed {
            proof {
                lemma_push_canvas(images@, layout@, shared);
                lemma_push_addressable(layout@, shared);
                lemma_push_shared(images@, layout@, shared);
            }
            let ghost full = layout@;
            open = layout.canvases.len();
            layout.canvases.push(shared);
            region = Region::new(ATLAS_SIDE, ATLAS_SIDE);
            proof {
                lemma_fresh_region(images@, full, shared, open, region.taken());
            }
            let again = place_in_region(images, layout, &mut region, i, open, 0);
            proof {
                assert(again);
                assert(region.taken() =~= seq![(0int, 0int, w as int, h as int)]);
            }
        }
        m += 1;
    }
    Ok(())
}

/// No image lies on a canvas that was just added to a sound plan.
pub proof fn lemma_fresh_region(
    images: Seq<ImageAsset>,
    plan: Plan,
    canvas: CanvasPlan,
    number: usize,
    reserved: Seq<(int, int, int, int)>,
)
    requires
        sound(images, plan),
        number == plan.canvases.len(),
    ensures
        region_kept(
            images,
            Plan { canvases: plan.canvases.push(canvas), spots: plan.spots },
            number,
            0,
            reserved,
        ),
{
    assert forall|i: int| 0 <= i < images.len() && (#[trigger] plan.spots[i]).is_some() implies
        plan.spots[i].unwrap().canvas < plan.canvases.len() by {}
}

/// Once the pending images cannot all be placed, they cannot be placed
/// however many more of them are tried.
pub proof fn lemma_general_fails(images: Seq<ImageAsset>, start: Progress, m: int, n: int)
    requires
        0 <= m <= n,
        with_general(images, start, m) is Err,
    ensures
        with_general(images, start, n) == with_general(images, start, m),
    decreases n - m,
{
    if m < n {
        lemma_general_fails(images, start, m, n - 1);
    }
}

} // verus!
