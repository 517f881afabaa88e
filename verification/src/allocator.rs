//! Regions in which rectangles are reserved, one after the other.
//!
//! The allocator of a region is `guillotiere::AtlasAllocator`. What the
//! packing code relies on is stated here over three names: the rectangles
//! that an allocator has reserved, the extent that it was made with, and the
//! corner that it picks. Nothing is proved of the allocator itself.

use vstd::prelude::*;

verus! {

#[verifier::external_type_specification]
#[verifier::external_body]
pub struct ExAtlasAllocator(guillotiere::AtlasAllocator);

/// The rectangles `(left, top, right, bottom)` reserved in an allocator so
/// far, in the order in which they were reserved.
pub uninterp spec fn reserved(a: guillotiere::AtlasAllocator) -> Seq<(int, int, int, int)>;

/// The width and height that an allocator was made with.
pub uninterp spec fn extent(a: guillotiere::AtlasAllocator) -> (int, int);

/// The corner that `guillotiere::AtlasAllocator::allocate` picks for a
/// rectangle of `width` by `height`, in an allocator of the given extent that
/// has reserved the given rectangles, in that order, and nothing else.
pub uninterp spec fn chosen_corner(
    extent: (int, int),
    reserved: Seq<(int, int, int, int)>,
    width: int,
    height: int,
) -> Option<(u32, u32)>;

/// The rectangle lies inside a canvas of the given extent.
pub open spec fn rect_inside(r: (int, int, int, int), extent: (int, int)) -> bool {
    0 <= r.0 && r.0 <= r.2 && r.2 <= extent.0 && 0 <= r.1 && r.1 <= r.3 && r.3 <= extent.1
}

/// The two rectangles share no point.
pub open spec fn rects_apart(r: (int, int, int, int), s: (int, int, int, int)) -> bool {
    r.2 <= s.0 || s.2 <= r.0 || r.3 <= s.1 || s.3 <= r.1
}

/// The most rectangles that one allocator is asked to reserve. The
/// allocator numbers the nodes of its tree with 24 bits and makes at most
/// four of them for a rectangle.
pub const MAX_RESERVED: usize = 4_000_000;

/// Calls `guillotiere::AtlasAllocator::new` with the default options: the
/// allocator has the given extent and has reserved nothing.
#[verifier::external_body]
pub(crate) fn new_allocator(width: u32, height: u32) -> (a: guillotiere::AtlasAllocator)
    requires
        0 < width <= 0x7fff_ffff,
        0 < height <= 0x7fff_ffff,
    ensures
        extent(a) == (width as int, height as int),
        reserved(a) == Seq::<(int, int, int, int)>::empty(),
{
    guillotiere::AtlasAllocator::new(guillotiere::size2(width as i32, height as i32))
}

/// Calls `guillotiere::AtlasAllocator::allocate`, on an allocator that was
/// made by `new_allocator` and used by this function only. The answer
/// depends only on the extent, on what was reserved before and on the size
/// asked for. A rectangle that is handed out has the size asked for, lies
/// inside the extent, touches none of those reserved before and is reserved
/// from then on; without one nothing changes. An empty size gets none. An
/// allocator that has reserved nothing hands out the corner `(0, 0)` for
/// every size that is not empty and fits its extent, and nothing for any
/// other. The number of rectangles is kept below `MAX_RESERVED`, so that the
/// allocator does not run out of numbers for its nodes.
#[verifier::external_body]
pub(crate) fn allocate(a: &mut guillotiere::AtlasAllocator, width: u32, height: u32) -> (r: Option<
    (u32, u32),
>)
    requires
        width <= 0x7fff_ffff,
        height <= 0x7fff_ffff,
        reserved(*old(a)).len() < MAX_RESERVED,
    ensures
        r == chosen_corner(extent(*old(a)), reserved(*old(a)), width as int, height as int),
        extent(*final(a)) == extent(*old(a)),
        r.is_none() ==> reserved(*final(a)) == reserved(*old(a)),
        r.is_some() ==> {
            let spot = (
                r.unwrap().0 as int,
                r.unwrap().1 as int,
                r.unwrap().0 + width,
                r.unwrap().1 + height,
            );
            &&& width > 0
            &&& height > 0
            &&& rect_inside(spot, extent(*old(a)))
            &&& forall|i: int|
                0 <= i < reserved(*old(a)).len() ==> rects_apart(
                    #[trigger] reserved(*old(a))[i],
                    spot,
                )
            &&& reserved(*final(a)) == reserved(*old(a)).push(spot)
        },
        reserved(*old(a)).len() == 0 ==> (r.is_some() <==> 0 < width <= extent(*old(a)).0 && 0
            < height <= extent(*old(a)).1),
        reserved(*old(a)).len() == 0 && r.is_some() ==> r == Some((0u32, 0u32)),
{
    match a.allocate(guillotiere::size2(width as i32, height as i32)) {
        Some(found) => Some((found.rectangle.min.x as u32, found.rectangle.min.y as u32)),
        None => None,
    }
}

/// The corner that the allocator of a region picks for a rectangle: none
/// for a rectangle that does not fit the region's extent, and none once the
/// region holds as many rectangles as it may.
pub open spec fn try_corner(
    extent: (int, int),
    reserved: Seq<(int, int, int, int)>,
    width: int,
    height: int,
) -> Option<(u32, u32)> {
    if width <= extent.0 && height <= extent.1 && reserved.len() < MAX_RESERVED {
        chosen_corner(extent, reserved, width, height)
    } else {
        None
    }
}

/// A region in which rectangles are reserved: its allocator, its size and
/// the number of rectangles reserved so far.
pub struct Region {
    pub allocator: guillotiere::AtlasAllocator,
    pub width: u32,
    pub height: u32,
    pub count: usize,
}

impl Region {
    /// The size and the count are those of the allocator.
    pub open spec fn wf(&self) -> bool {
        &&& extent(self.allocator) == (self.width as int, self.height as int)
        &&& reserved(self.allocator).len() == self.count
        &&& self.width <= 0x7fff_ffff
        &&& self.height <= 0x7fff_ffff
    }

    /// The width and height of the region.
    pub open spec fn extent(&self) -> (int, int) {
        (self.width as int, self.height as int)
    }

    /// The rectangles reserved so far, in the order in which they were
    /// reserved.
    pub open spec fn taken(&self) -> Seq<(int, int, int, int)> {
        reserved(self.allocator)
    }

    /// A region of the given size in which nothing is reserved.
    pub fn new(width: u32, height: u32) -> (r: Region)
        requires
            0 < width <= 0x7fff_ffff,
            0 < height <= 0x7fff_ffff,
        ensures
            r.wf(),
            r.width == width,
            r.height == height,
            r.taken() == Seq::<(int, int, int, int)>::empty(),
    {
        Region { allocator: new_allocator(width, height), width, height, count: 0 }
    }

    /// Reserves a rectangle of the given size and gives its top left corner,
    /// where the region has room for it.
    ///
    /// The rectangle lies inside the region and touches none of those
    /// reserved before. A region in which nothing is reserved puts every
    /// rectangle that fits it, and is not empty, at its origin.
    pub fn place(&mut self, width: u64, height: u64) -> (r: Option<(u32, u32)>)
        requires
            old(self).wf(),
        ensures
            final(self).wf(),
            final(self).width == old(self).width,
            final(self).height == old(self).height,
            r == try_corner(old(self).extent(), old(self).taken(), width as int, height as int),
            r is None ==> final(self).taken() == old(self).taken(),
            r matches Some(c) ==> {
                let spot = (c.0 as int, c.1 as int, c.0 + width, c.1 + height);
                &&& width > 0
                &&& height > 0
                &&& rect_inside(spot, old(self).extent())
                &&& forall|i: int|
                    0 <= i < old(self).taken().len() ==> rects_apart(
                        #[trigger] old(self).taken()[i],
                        spot,
                    )
                &&& final(self).taken() == old(self).taken().push(spot)
            },
            old(self).taken().len() == 0 ==> r == if 0 < width <= old(self).width && 0 < height
                <= old(self).height {
                Some((0u32, 0u32))
            } else {
                None
            },
    {
        if width > self.width as u64 || height > self.height as u64 || self.count >= MAX_RESERVED {
            return None;
        }
        let r = allocate(&mut self.allocator, width as u32, height as u32);
        if r.is_some() {
            self.count = self.count + 1;
        }
        r
    }
}

} // verus!
