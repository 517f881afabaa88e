//! Makes the strips: the canvases on which the images that repeat along x
//! only are stacked, one strip for each width.

use crate::allocator::{rect_inside, rects_apart, Region};
use crate::bitmap::fits_memory;
use crate::gather::ImageAsset;
use crate::layout::{
    addressable, after_strip, all_wf, backfilled, dedicated_first, least_general_height,
    lemma_push_addressable, lemma_push_shared,
    lemma_push_canvas, refused, own_rect, region_kept, sound, stacked, strip_canvas_height,
    strip_fits, strip_has_category, strip_height, strip_opened, tidy, with_dedicated,
    with_strips, CanvasPlan, Fill, Layout, PackError, Plan, Progress, Spot, MAX_STRIP_SIDE,
    MIN_STRIP_HEIGHT, STRIP_GAP,
};
use crate::order::{all_general, general_order};
use crate::pack::{doubled_up_to, lemma_doubled_bounded, next_pow2_number, TextureFlags};
use crate::shelves::{keeps_places, place_in_region};
use vstd::prelude::*;

verus! {

/// Decides whether one of the first `n` images opens the strip of the given
/// width.
pub fn strip_was_opened(images: &Vec<ImageAsset>, width: u32, n: usize) -> (r: bool)
    requires
        n <= images@.len(),
    ensures
        r == strip_opened(images@, width, n as int),
{
    let mut k: usize = 0;
    while k < n
        invariant
            k <= n <= images@.len(),
            !strip_opened(images@, width, k as int),
        decreases n - k,
    {
        let image = &images[k];
        if !image.no_pack && image.repeat_x && !image.repeat_y && image.rgba.width == width {
            proof {
                lemma_strip_stays_open(images@, width, k as int + 1, n as int);
            }
            return true;
        }
        k += 1;
    }
    false
}

/// A strip that one of the first `m` images opens is open for every later
/// count.
pub proof fn lemma_strip_stays_open(images: Seq<ImageAsset>, width: u32, m: int, n: int)
    requires
        m <= n,
        strip_opened(images, width, m),
    ensures
        strip_opened(images, width, n),
    decreases n - m,
{
    if m < n {
        lemma_strip_stays_open(images, width, m, n - 1);
    }
}

/// A strip grows with the number of images that are counted.
pub proof fn lemma_strip_height_grows(images: Seq<ImageAsset>, width: u32, m: int, n: int)
    requires
        m <= n,
    ensures
        strip_height(images, width, m) <= strip_height(images, width, n),
        0 <= strip_height(images, width, m),
    decreases n - m,
{
    if m < n {
        lemma_strip_height_grows(images, width, m, n - 1);
    } else {
        lemma_strip_height_positive(images, width, m);
    }
}

proof fn lemma_strip_height_positive(images: Seq<ImageAsset>, width: u32, n: int)
    ensures
        0 <= strip_height(images, width, n),
    decreases n,
{
    if n > 0 {
        lemma_strip_height_positive(images, width, n - 1);
    }
}

/// Adds up the rows that the strip of the given width takes; none where they
/// are more than a strip may have.
pub fn measure_strip(images: &Vec<ImageAsset>, width: u32) -> (r: Option<u32>)
    ensures
        match r {
            Some(total) => total == strip_height(images@, width, images@.len() as int) && total
                <= MAX_STRIP_SIDE,
            None => strip_height(images@, width, images@.len() as int) > MAX_STRIP_SIDE,
        },
{
    let mut total: u32 = 0;
    let mut n: usize = 0;
    while n < images.len()
        invariant
            n <= images@.len(),
            total == strip_height(images@, width, n as int),
            total <= MAX_STRIP_SIDE,
        decreases images@.len() - n,
    {
        let image = &images[n];
        if !image.no_pack && image.repeat_x && !image.repeat_y && image.rgba.width == width {
            let more: u64 = total as u64 + image.rgba.height as u64 + STRIP_GAP as u64;
            if more > MAX_STRIP_SIDE as u64 {
                proof {
                    lemma_strip_height_grows(images@, width, n as int + 1, images@.len() as int);
                }
                return None;
            }
            total = more as u32;
        }
        n += 1;
    }
    Some(total)
}

/// Finds the least height among the images that repeat along no axis.
pub fn lowest_general(images: &Vec<ImageAsset>) -> (r: u32)
    ensures
        r == least_general_height(images@, images@.len() as int),
{
    let mut least: u32 = u32::MAX;
    let mut n: usize = 0;
    while n < images.len()
        invariant
            n <= images@.len(),
            least == least_general_height(images@, n as int),
        decreases images@.len() - n,
    {
        let image = &images[n];
        if !image.no_pack && !image.repeat_x && !image.repeat_y && image.rgba.height < least {
            least = image.rgba.height;
        }
        n += 1;
    }
    least
}

/// Decides whether two images belong to the same category.
pub fn same_category(a: &ImageAsset, b: &ImageAsset) -> (r: bool)
    requires
        a.entry.asset_path@.len() > 0,
        b.entry.asset_path@.len() > 0,
    ensures
        r == (a.category() == b.category()),
{
    let p = a.entry.asset_path.path();
    let q = b.entry.asset_path.path();
    let ghost ps = a.category();
    let ghost qs = b.category();
    assert forall|k: int| 0 <= k < ps.len() implies ps[k] == #[trigger] p@[k]@ by {}
    assert forall|k: int| 0 <= k < qs.len() implies qs[k] == #[trigger] q@[k]@ by {}
    assert(p@.len() == ps.len() && q@.len() == qs.len());
    if p.len() != q.len() {
        assert(ps.len() != qs.len());
        return false;
    }
    let mut i: usize = 0;
    while i < p.len()
        invariant
            i <= p@.len(),
            ps == a.category(),
            qs == b.category(),
            p@.len() == ps.len(),
            q@.len() == qs.len(),
            ps.len() == qs.len(),
            forall|k: int| 0 <= k < ps.len() ==> ps[k] == #[trigger] p@[k]@,
            forall|k: int| 0 <= k < qs.len() ==> qs[k] == #[trigger] q@[k]@,
            forall|k: int| 0 <= k < i ==> ps[k] == qs[k],
        decreases p@.len() - i,
    {
        if p[i] != q[i] {
            assert(ps[i as int] == p@[i as int]@ && qs[i as int] == q@[i as int]@);
            return false;
        }
        assert(ps[i as int] == p@[i as int]@ && qs[i as int] == q@[i as int]@);
        i += 1;
    }
    assert(ps =~= qs);
    true
}

/// Decides whether an image of the strip of the given width belongs to the
/// category of image `i`.
pub fn in_strip_category(images: &Vec<ImageAsset>, width: u32, i: usize) -> (r: bool)
    requires
        all_wf(images@),
        i < images@.len(),
    ensures
        r == strip_has_category(
            images@,
            width,
            images@[i as int].category(),
            images@.len() as int,
        ),
{
    let ghost category = images@[i as int].category();
    let mut k: usize = 0;
    while k < images.len()
        invariant
            k <= images@.len(),
            i < images@.len(),
            all_wf(images@),
            category == images@[i as int].category(),
            !strip_has_category(images@, width, category, k as int),
        decreases images@.len() - k,
    {
        let image = &images[k];
        assert(image.wf() && images@[i as int].wf());
        if !image.no_pack && image.repeat_x && !image.repeat_y && image.rgba.width == width
            && same_category(image, &images[i]) {
            proof {
                lemma_category_stays(images@, width, category, k as int + 1, images@.len() as int);
            }
            return true;
        }
        k += 1;
    }
    false
}

/// A category that one of the first `m` images gives a strip belongs to the
/// strip for every later count.
pub proof fn lemma_category_stays(
    images: Seq<ImageAsset>,
    width: u32,
    category: Seq<Seq<char>>,
    m: int,
    n: int,
)
    requires
        m <= n,
        strip_has_category(images, width, category, m),
    ensures
        strip_has_category(images, width, category, n),
    decreases n - m,
{
    if m < n {
        lemma_category_stays(images, width, category, m, n - 1);
    }
}

/// The image belongs to the strip of the given width.
pub open spec fn in_strip(asset: ImageAsset, width: u32) -> bool {
    asset.tiles_x() && asset.rgba.width == width
}

/// What `stacked` gives: the images of the strip stand on the canvas at the
/// left edge, each at the row where the ones before it end, and every other
/// image keeps what it had.
pub proof fn lemma_stacked_places(
    images: Seq<ImageAsset>,
    width: u32,
    canvas: usize,
    spots: Seq<Option<Spot>>,
    n: int,
)
    requires
        0 <= n <= images.len(),
        spots.len() == images.len(),
    ensures
        stacked(images, width, canvas, spots, n).len() == spots.len(),
        forall|j: int|
            0 <= j < images.len() ==> #[trigger] stacked(images, width, canvas, spots, n)[j] == if j
                < n && in_strip(images[j], width) {
                Some(Spot { canvas, x: 0, y: strip_height(images, width, j) as u32 })
            } else {
                spots[j]
            },
    decreases n,
{
    if n > 0 {
        lemma_stacked_places(images, width, canvas, spots, n - 1);
    }
}

/// Stacking a strip on a canvas that was added for it keeps a plan sound and
/// tidy, and leaves the rows from `total` on free.
pub proof fn lemma_stacked_sound(
    images: Seq<ImageAsset>,
    plan: Plan,
    width: u32,
    canvas: usize,
    total: int,
)
    requires
        all_wf(images),
        sound(images, plan),
        tidy(images, plan),
        canvas + 1 == plan.canvases.len(),
        plan.canvases[canvas as int].width == width,
        plan.canvases[canvas as int].height == strip_canvas_height(total),
        plan.canvases[canvas as int].flags == TextureFlags::x_only(),
        total == strip_height(images, width, images.len() as int),
        total <= plan.canvases[canvas as int].height,
        forall|j: int|
            0 <= j < images.len() && (#[trigger] plan.spots[j]).is_some()
                ==> plan.spots[j].unwrap().canvas < canvas,
        forall|j: int|
            0 <= j < images.len() && in_strip(images[j], width) ==> (
            #[trigger] plan.spots[j]).is_none(),
    ensures
        ({
            let after = Plan {
                canvases: plan.canvases,
                spots: stacked(images, width, canvas, plan.spots, images.len() as int),
            };
            &&& sound(images, after)
            &&& tidy(images, after)
            &&& region_kept(images, after, canvas, total, Seq::empty())
            &&& keeps_places(plan, after)
            &&& forall|j: int|
                0 <= j < images.len() && in_strip(images[j], width) ==> (
                #[trigger] after.spots[j]).is_some()
            &&& forall|j: int|
                0 <= j < images.len() && !in_strip(images[j], width) ==> (
                #[trigger] after.spots[j]) == plan.spots[j]
        }),
{
    let n = images.len() as int;
    let after = Plan {
        canvases: plan.canvases,
        spots: stacked(images, width, canvas, plan.spots, n),
    };
    lemma_stacked_places(images, width, canvas, plan.spots, n);
    assert forall|j: int| 0 <= j < n && in_strip(images[j], width) implies 0 <= strip_height(
        images,
        width,
        j,
    ) && strip_height(images, width, j) + images[j].rgba.height + STRIP_GAP <= total by {
        lemma_strip_height_grows(images, width, j, j + 1);
        lemma_strip_height_grows(images, width, j + 1, n);
        lemma_strip_height_grows(images, width, 0, j);
    }
    assert forall|i: int, j: int|
        0 <= i < j < n && in_strip(images[i], width) && in_strip(
            images[j],
            width,
        ) implies strip_height(images, width, i) + images[i].rgba.height + STRIP_GAP
        <= strip_height(images, width, j) by {
        lemma_strip_height_grows(images, width, i + 1, j);
    }
    assert forall|j: int| 0 <= j < n && (#[trigger] after.spots[j]).is_some() implies {
        let spot = after.spots[j].unwrap();
        &&& !images[j].no_pack
        &&& spot.canvas < after.canvases.len()
        &&& rect_inside(
            own_rect(images[j], spot),
            (
                after.canvases[spot.canvas as int].width as int,
                after.canvases[spot.canvas as int].height as int,
            ),
        )
        &&& (!in_strip(images[j], width) ==> spot.canvas < canvas)
    } by {
        if !in_strip(images[j], width) {
            assert(plan.spots[j].is_some());
        }
    }
    assert forall|i: int, j: int|
        0 <= i < j < n && (#[trigger] after.spots[i]).is_some() && (
        #[trigger] after.spots[j]).is_some() && after.spots[i].unwrap().canvas
            == after.spots[j].unwrap().canvas implies rects_apart(
        own_rect(images[i], after.spots[i].unwrap()),
        own_rect(images[j], after.spots[j].unwrap()),
    ) by {
        if !in_strip(images[i], width) && !in_strip(images[j], width) {
            assert(plan.spots[i].is_some() && plan.spots[j].is_some());
        }
    }
    assert(sound(images, after));
    assert(tidy(images, after)) by {
        assert forall|i: int, j: int|
            0 <= i < j < n && images[i].tiles_x() && images[j].tiles_x() && images[i].rgba.width
                == images[j].rgba.width && (#[trigger] after.spots[i]).is_some() && (
            #[trigger] after.spots[j]).is_some() implies {
            &&& after.spots[i].unwrap().canvas == after.spots[j].unwrap().canvas
            &&& after.spots[i].unwrap().y + images[i].rgba.height + STRIP_GAP
                <= after.spots[j].unwrap().y
        } by {
            if !in_strip(images[i], width) {
                assert(plan.spots[i].is_some() && plan.spots[j].is_some());
            }
        }
        assert forall|k: int|
            0 <= k < n && images[k].tiles_both() && (
            #[trigger] after.spots[k]).is_some() implies plan.spots[k].is_some() by {}
        assert forall|k: int|
            0 <= k < n && !images[k].tiles_both() && !in_strip(images[k], width) && (
            #[trigger] after.spots[k]).is_some() implies plan.spots[k].is_some() by {}
    }
}

/// Stacks the images of the strip of the given width on the canvas that was
/// added for them.
fn stack_strip(images: &Vec<ImageAsset>, layout: &mut Layout, width: u32, canvas: usize, total: u32)
    requires
        all_wf(images@),
        old(layout)@.spots.len() == images@.len(),
        total == strip_height(images@, width, images@.len() as int),
    ensures
        final(layout)@.canvases == old(layout)@.canvases,
        final(layout)@.spots == stacked(
            images@,
            width,
            canvas,
            old(layout)@.spots,
            images@.len() as int,
        ),
{
    let mut y: u32 = 0;
    let mut n: usize = 0;
    while n < images.len()
        invariant
            n <= images@.len(),
            layout@.canvases == old(layout)@.canvases,
            layout@.spots.len() == images@.len(),
            total == strip_height(images@, width, images@.len() as int),
            y == strip_height(images@, width, n as int),
            layout@.spots == stacked(images@, width, canvas, old(layout)@.spots, n as int),
        decreases images@.len() - n,
    {
        let image = &images[n];
        if !image.no_pack && image.repeat_x && !image.repeat_y && image.rgba.width == width {
            proof {
                lemma_strip_height_grows(images@, width, n as int + 1, images@.len() as int);
            }
            layout.spots.set(n, Some(Spot { canvas, x: 0, y }));
            y = y + image.rgba.height + STRIP_GAP;
        }
        n += 1;
    }
}

/// Every pending image has a place or is still pending.
pub open spec fn none_lost(
    images: Seq<ImageAsset>,
    plan: Plan,
    waiting: Seq<usize>,
    pending: Seq<usize>,
) -> bool {
    forall|k: int|
        0 <= k < waiting.len() ==> plan.spots[(#[trigger] waiting[k]) as int].is_some()
            || pending.contains(waiting[k])
}

/// Fills the region below a strip with pending images of the strip's
/// categories, and lists the images that stay pending.
fn backfill(
    images: &Vec<ImageAsset>,
    layout: &mut Layout,
    pending: &Vec<usize>,
    width: u32,
    canvas: usize,
    base: u32,
    room: u32,
) -> (kept: Vec<usize>)
    requires
        all_wf(images@),
        all_general(images@, pending@),
        sound(images@, old(layout)@),
        tidy(images@, old(layout)@),
        region_kept(images@, old(layout)@, canvas, base as int, Seq::empty()),
        canvas < old(layout)@.canvases.len(),
        old(layout)@.canvases[canvas as int].flags == TextureFlags::x_only(),
        old(layout)@.canvases[canvas as int].width == width,
        base + room <= old(layout)@.canvases[canvas as int].height,
        0 < width <= MAX_STRIP_SIDE,
        0 < room <= MAX_STRIP_SIDE,
    ensures
        final(layout)@.canvases == old(layout)@.canvases,
        ({
            let fill = backfilled(
                images@,
                width,
                canvas,
                (width as int, room as int),
                base as int,
                pending@,
                Fill { spots: old(layout)@.spots, reserved: Seq::empty(), kept: Seq::empty() },
                pending@.len() as int,
            );
            final(layout)@.spots == fill.spots && kept@ == fill.kept
        }),
        sound(images@, final(layout)@),
        tidy(images@, final(layout)@),
        keeps_places(old(layout)@, final(layout)@),
        all_general(images@, kept@),
        none_lost(images@, final(layout)@, pending@, kept@),
        forall|j: int|
            0 <= j < images@.len() && !images@[j].is_general() ==> (
            #[trigger] final(layout)@.spots[j]) == old(layout)@.spots[j],
{
    let ghost start = Fill {
        spots: layout@.spots,
        reserved: Seq::empty(),
        kept: Seq::empty(),
    };
    let ghost extent = (width as int, room as int);
    let mut region = Region::new(width, room);
    let mut kept: Vec<usize> = Vec::new();
    let mut m: usize = 0;
    while m < pending.len()
        invariant
            m <= pending@.len(),
            all_wf(images@),
            all_general(images@, pending@),
            all_general(images@, kept@),
            extent == (width as int, room as int),
            region.wf(),
            region.width == width,
            region.height == room,
            0 < width <= MAX_STRIP_SIDE,
            0 < room <= MAX_STRIP_SIDE,
            start == (Fill {
                spots: old(layout)@.spots,
                reserved: Seq::empty(),
                kept: Seq::empty(),
            }),
            backfilled(images@, width, canvas, extent, base as int, pending@, start, m as int) == (
            Fill { spots: layout@.spots, reserved: region.taken(), kept: kept@ }),
            layout@.canvases == old(layout)@.canvases,
            canvas < layout@.canvases.len(),
            layout@.canvases[canvas as int].flags == TextureFlags::x_only(),
            layout@.canvases[canvas as int].width == width,
            base + room <= layout@.canvases[canvas as int].height,
            sound(images@, layout@),
            tidy(images@, layout@),
            region_kept(images@, layout@, canvas, base as int, region.taken()),
            keeps_places(old(layout)@, layout@),
            forall|k: int|
                0 <= k < m ==> layout@.spots[(#[trigger] pending@[k]) as int].is_some()
                    || kept@.contains(pending@[k]),
            forall|j: int|
                0 <= j < images@.len() && !images@[j].is_general() ==> (
                #[trigger] layout@.spots[j]) == old(layout)@.spots[j],
        decreases pending@.len() - m,
    {
        let i = pending[m];
        let ghost kept_before = kept@;
        let ghost spots_before = layout@.spots;
        let mut placed = false;
        if in_strip_category(images, width, i) {
            placed = place_in_region(images, layout, &mut region, i, canvas, base);
        }
        if !placed {
            kept.push(i);
        }
        proof {
            assert forall|k: int| 0 <= k < m + 1 implies layout@.spots[(
            #[trigger] pending@[k]) as int].is_some() || kept@.contains(pending@[k]) by {
                if k < m {
                    if spots_before[pending@[k] as int].is_some() {
                    } else {
                        let at = choose|at: int|
                            0 <= at < kept_before.len() && kept_before[at] == pending@[k];
                        assert(kept@[at] == pending@[k]);
                    }
                } else if !placed {
                    assert(kept@[kept_before.len() as int] == i);
                }
            }
        }
        m += 1;
    }
    kept
}

/// The least height among the images that repeat along no axis is not 0.
pub proof fn lemma_least_positive(images: Seq<ImageAsset>, n: int)
    requires
        all_wf(images),
        0 <= n <= images.len(),
    ensures
        least_general_height(images, n) > 0,
    decreases n,
{
    if n > 0 {
        lemma_least_positive(images, n - 1);
        assert(images[n - 1].wf());
    }
}

/// Makes the strip that image `i` starts: adds its canvas, stacks its images
/// and fills what is left below them.
fn place_strip(
    images: &Vec<ImageAsset>,
    layout: &mut Layout,
    pending: &mut Vec<usize>,
    i: usize,
) -> (r: Result<(), PackError>)
    requires
        all_wf(images@),
        all_general(images@, old(pending)@),
        sound(images@, old(layout)@),
        tidy(images@, old(layout)@),
        addressable(old(layout)@),
        dedicated_first(images@, old(layout)@),
        i < images@.len(),
        forall|j: int|
            0 <= j < images@.len() && in_strip(images@[j], images@[i as int].rgba.width) ==> (
            #[trigger] old(layout)@.spots[j]).is_none(),
    ensures
        match r {
            Ok(_) => {
                &&& after_strip(
                    images@,
                    Progress { plan: old(layout)@, pending: old(pending)@ },
                    i as int,
                ) == Ok::<Progress, PackError>(
                    Progress { plan: final(layout)@, pending: final(pending)@ },
                )
                &&& sound(images@, final(layout)@)
                &&& tidy(images@, final(layout)@)
                &&& addressable(final(layout)@)
                &&& dedicated_first(images@, final(layout)@)
                &&& keeps_places(old(layout)@, final(layout)@)
                &&& all_general(images@, final(pending)@)
                &&& none_lost(images@, final(layout)@, old(pending)@, final(pending)@)
                &&& forall|j: int|
                    0 <= j < images@.len() && in_strip(images@[j], images@[i as int].rgba.width)
                        ==> (#[trigger] final(layout)@.spots[j]).is_some()
                &&& forall|j: int|
                    0 <= j < images@.len() && !images@[j].is_general() && !in_strip(
                        images@[j],
                        images@[i as int].rgba.width,
                    ) ==> (#[trigger] final(layout)@.spots[j]) == old(layout)@.spots[j]
            },
            Err(e) => e == (PackError::StripTooLarge { image: i }) && !strip_fits(
                images@[i as int].rgba.width,
                strip_height(images@, images@[i as int].rgba.width, images@.len() as int),
            ) && after_strip(
                images@,
                Progress { plan: old(layout)@, pending: old(pending)@ },
                i as int,
            ) == Err::<Progress, PackError>(e),
        },
{
    let width = images[i].rgba.width;
    assert(images@[i as int].wf());
    let total = match measure_strip(images, width) {
        Some(total) => total,
        None => {
            return Err(PackError::StripTooLarge { image: i });
        },
    };
    if width > MAX_STRIP_SIDE {
        return Err(PackError::StripTooLarge { image: i });
    }
    proof {
        assert(doubled_up_to_limit()) by {
            reveal_with_fuel(doubled_up_to, 32);
        }
        lemma_doubled_bounded(2, total as int, MAX_STRIP_SIDE as int);
    }
    let power = next_pow2_number(total as usize);
    let height: u32 = if power < MIN_STRIP_HEIGHT as usize {
        MIN_STRIP_HEIGHT
    } else {
        power as u32
    };
    assert(height == strip_canvas_height(total as int));
    if !fits_memory(width, height, 4) {
        return Err(PackError::StripTooLarge { image: i });
    }
    let ghost before = layout@;
    let ghost waiting = pending@;
    let canvas = layout.canvases.len();
    let strip = CanvasPlan { width, height, flags: TextureFlags::repeat_x_only() };
    proof {
        lemma_push_canvas(images@, before, strip);
        lemma_push_addressable(before, strip);
        lemma_push_shared(images@, before, strip);
    }
    layout.canvases.push(strip);
    let ghost opened = layout@;
    stack_strip(images, layout, width, canvas, total);
    proof {
        assert forall|j: int|
            0 <= j < images@.len() && (#[trigger] opened.spots[j]).is_some() implies
            opened.spots[j].unwrap().canvas < canvas by {
            assert(before.spots[j].is_some());
        }
        lemma_stacked_sound(images@, opened, width, canvas, total as int);
        lemma_least_positive(images@, images@.len() as int);
    }
    let ghost stacked_plan = layout@;
    if height - total >= lowest_general(images) {
        let kept = backfill(images, layout, pending, width, canvas, total, height - total);
        *pending = kept;
    } else {
        assert forall|k: int| 0 <= k < waiting.len() implies layout@.spots[(
        #[trigger] waiting[k]) as int].is_some() || pending@.contains(waiting[k]) by {
            assert(pending@[k] == waiting[k]);
        }
    }
    Ok(())
}

/// Doubling from 2 reaches the greatest side of a strip.
pub open spec fn doubled_up_to_limit() -> bool {
    doubled_up_to(2, MAX_STRIP_SIDE as int) == MAX_STRIP_SIDE
}

/// Once a strip cannot be made, the strips cannot be made however many more
/// images are looked at.
pub proof fn lemma_strips_fail(images: Seq<ImageAsset>, m: int, n: int)
    requires
        0 <= m <= n,
        with_strips(images, m) is Err,
    ensures
        with_strips(images, n) == with_strips(images, m),
    decreases n - m,
{
    if m < n {
        lemma_strips_fail(images, m, n - 1);
    }
}

/// Which images have a place once the strips that the first `n` images start
/// are made: those that repeat along both axes, those of the strips that are
/// open, and of the others only images that are no longer pending.
pub open spec fn placed_so_far(
    images: Seq<ImageAsset>,
    plan: Plan,
    pending: Seq<usize>,
    n: int,
) -> bool {
    &&& forall|j: int|
        0 <= j < images.len() && images[j].tiles_both() ==> (#[trigger] plan.spots[j]).is_some()
    &&& forall|j: int|
        0 <= j < images.len() && images[j].tiles_x() ==> (#[trigger] plan.spots[j]).is_some()
            == strip_opened(images, images[j].rgba.width, n)
    &&& forall|j: int|
        0 <= j < images.len() && images[j].is_general() ==> (#[trigger] plan.spots[j]).is_some()
            || pending.contains(j as usize)
}

/// Makes the strips, in the order in which their first images were found.
pub(crate) fn place_strips(images: &Vec<ImageAsset>, layout: &mut Layout, pending: &mut Vec<usize>) -> (r:
    Result<(), PackError>)
    requires
        all_wf(images@),
        old(layout)@ == with_dedicated(images@, images@.len() as int),
        old(pending)@ == general_order(images@, images@.len() as int),
        all_general(images@, old(pending)@),
        sound(images@, old(layout)@),
        tidy(images@, old(layout)@),
        addressable(old(layout)@),
        dedicated_first(images@, old(layout)@),
        placed_so_far(images@, old(layout)@, old(pending)@, 0),
    ensures
        match r {
            Ok(_) => {
                &&& with_strips(images@, images@.len() as int) == Ok::<Progress, PackError>(
                    Progress { plan: final(layout)@, pending: final(pending)@ },
                )
                &&& sound(images@, final(layout)@)
                &&& tidy(images@, final(layout)@)
                &&& addressable(final(layout)@)
                &&& dedicated_first(images@, final(layout)@)
                &&& all_general(images@, final(pending)@)
                &&& placed_so_far(
                    images@,
                    final(layout)@,
                    final(pending)@,
                    images@.len() as int,
                )
            },
            Err(e) => refused(images@, e) && with_strips(images@, images@.len() as int) == Err::<
                Progress,
                PackError,
            >(e),
        },
{
    let mut n: usize = 0;
    while n < images.len()
        invariant
            n <= images@.len(),
            all_wf(images@),
            with_strips(images@, n as int) == Ok::<Progress, PackError>(
                Progress { plan: layout@, pending: pending@ },
            ),
            sound(images@, layout@),
            tidy(images@, layout@),
            addressable(layout@),
            dedicated_first(images@, layout@),
            all_general(images@, pending@),
            placed_so_far(images@, layout@, pending@, n as int),
        decreases images@.len() - n,
    {
        let image = &images[n];
        if !image.no_pack && image.repeat_x && !image.repeat_y && !strip_was_opened(
            images,
            image.rgba.width,
            n,
        ) {
            let ghost before = layout@;
            let ghost waiting = pending@;
            match place_strip(images, layout, pending, n) {
                Err(e) => {
                    proof {
                        lemma_strips_fail(images@, n as int + 1, images@.len() as int);
                    }
                    return Err(e);
                },
                Ok(_) => {
                    proof {
                        assert forall|j: int|
                            0 <= j < images@.len() && images@[j].is_general() implies (
                        #[trigger] layout@.spots[j]).is_some() || pending@.contains(
                            j as usize,
                        ) by {
                            if before.spots[j].is_some() {
                            } else {
                                let k = choose|k: int|
                                    0 <= k < waiting.len() && waiting[k] == j as usize;
                                assert(layout@.spots[waiting[k] as int].is_some()
                                    || pending@.contains(waiting[k]));
                            }
                        }
                        assert forall|j: int|
                            0 <= j < images@.len() && images@[j].tiles_both() implies (
                        #[trigger] layout@.spots[j]).is_some() by {
                            assert(before.spots[j].is_some());
                        }
                    }
                },
            }
        }
        n += 1;
    }
    Ok(())
}

} // verus!
