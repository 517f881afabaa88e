//! Pixel buffers: rows of pixels, each pixel a fixed number of bytes.

use vstd::arithmetic::div_mod::{lemma_fundamental_div_mod, lemma_fundamental_div_mod_converse};
use vstd::prelude::*;

verus! {

/// A pixel buffer. Its rows follow one another in `data`, top row first; each
/// pixel takes `channels` bytes.
#[derive(Debug, Clone)]
pub struct Bitmap {
    pub width: u32,
    pub height: u32,
    pub channels: u8,
    pub data: Vec<u8>,
}

/// The byte at position `i` of `dst` after the rows of `src` were copied into
/// it, the first of them to row `top`, each starting `left` bytes into the
/// row. A row of `dst` has `dst_stride` bytes, one of `src` has `src_stride`.
pub open spec fn blit_cell(
    dst: Seq<u8>,
    dst_stride: int,
    src: Seq<u8>,
    src_stride: int,
    rows: int,
    left: int,
    top: int,
    i: int,
) -> u8 {
    let row = i / dst_stride;
    let byte = i % dst_stride;
    if top <= row < top + rows && left <= byte < left + src_stride {
        src[(row - top) * src_stride + (byte - left)]
    } else {
        dst[i]
    }
}

/// The bytes of `dst` after the rows of `src` were copied into it.
pub open spec fn blitted(
    dst: Seq<u8>,
    dst_stride: int,
    src: Seq<u8>,
    src_stride: int,
    rows: int,
    left: int,
    top: int,
) -> Seq<u8> {
    Seq::new(
        dst.len(),
        |i: int| blit_cell(dst, dst_stride, src, src_stride, rows, left, top, i),
    )
}

/// Whether the copy has reached the byte at position `i` once `row` rows and
/// `done` bytes of the next one are copied.
pub open spec fn blit_reached(dst_stride: int, top: int, left: int, row: int, done: int, i: int) -> bool {
    i / dst_stride < top + row || (i / dst_stride == top + row && i % dst_stride < left + done)
}

/// The number of bytes that `width * height` pixels of `channels` bytes take.
pub open spec fn byte_count(width: u32, height: u32, channels: u8) -> int {
    width * height * channels
}

/// Whether a buffer of this size can be addressed on this machine.
pub fn fits_memory(width: u32, height: u32, channels: u8) -> (r: bool)
    ensures
        r == (byte_count(width, height, channels) <= usize::MAX),
{
    assert((width as int) * (height as int) <= 0xffff_ffff * 0xffff_ffff) by (nonlinear_arith)
        requires
            0 <= width <= 0xffff_ffff,
            0 <= height <= 0xffff_ffff,
    ;
    let cells: u64 = (width as u64) * (height as u64);
    assert((cells as int) * (channels as int) <= 0xffff_ffff_ffff_ffff * 0xff) by (nonlinear_arith)
        requires
            0 <= cells <= 0xffff_ffff_ffff_ffff,
            0 <= channels <= 0xff,
    ;
    let bytes: u128 = (cells as u128) * (channels as u128);
    bytes <= usize::MAX as u128
}

impl Bitmap {
    /// The number of bytes in a row.
    pub open spec fn stride(&self) -> int {
        self.width * self.channels
    }

    /// The buffer holds exactly its pixels.
    pub open spec fn wf(&self) -> bool {
        self.channels > 0 && self.data@.len() == byte_count(self.width, self.height, self.channels)
    }

    /// A buffer of the given size with every byte 0.
    pub fn new(width: u32, height: u32, channels: u8) -> (r: Bitmap)
        requires
            channels > 0,
            byte_count(width, height, channels) <= usize::MAX,
        ensures
            r.wf(),
            r.width == width,
            r.height == height,
            r.channels == channels,
            r.data@ == Seq::new(byte_count(width, height, channels) as nat, |i: int| 0u8),
    {
        assert((width as int) * (height as int) <= byte_count(width, height, channels))
            by (nonlinear_arith)
            requires
                channels > 0,
                0 <= width,
                0 <= height,
        ;
        let cells: usize = (width as usize) * (height as usize);
        let bytes: usize = cells * (channels as usize);
        let data = vec![0u8; bytes];
        assert(data@ =~= Seq::new(byte_count(width, height, channels) as nat, |i: int| 0u8));
        Bitmap { width, height, channels, data }
    }

    /// Copies `src` into this buffer, with its top left pixel at column `x`
    /// of row `y`.
    pub fn blit(&mut self, src: &Bitmap, x: u32, y: u32)
        requires
            old(self).wf(),
            src.wf(),
            src.channels == old(self).channels,
            x + src.width <= old(self).width,
            y + src.height <= old(self).height,
        ensures
            final(self).wf(),
            final(self).width == old(self).width,
            final(self).height == old(self).height,
            final(self).channels == old(self).channels,
            final(self).data@ == blitted(
                old(self).data@,
                old(self).stride(),
                src.data@,
                src.stride(),
                src.height as int,
                x * src.channels,
                y as int,
            ),
    {
        let ghost before = self.data@;
        let ghost ds = self.stride();
        let ghost ss = src.stride();
        let ghost rows = src.height as int;
        let ghost top = y as int;
        let ghost left = x * src.channels;
        if src.width == 0 || src.height == 0 {
            proof {
                assert(src.width == 0 ==> ss == 0) by (nonlinear_arith)
                    requires
                        ss == src.width * src.channels,
                ;
                assert(self.data@ =~= blitted(before, ds, src.data@, ss, rows, left, top));
            }
            return ;
        }
        let total = self.data.len();
        let src_total = src.data.len();
        proof {
            lemma_buffer_bounds(self.width, self.height, self.channels);
            lemma_buffer_bounds(src.width, src.height, src.channels);
            assert(ss > 0 && ds >= ss) by (nonlinear_arith)
                requires
                    ss == src.width * src.channels,
                    ds == self.width * src.channels,
                    src.width > 0,
                    src.channels > 0,
                    src.width <= self.width,
            ;
            assert(0 <= left) by (nonlinear_arith)
                requires
                    left == x * src.channels,
            ;
            assert(left + ss <= ds) by (nonlinear_arith)
                requires
                    left == x * src.channels,
                    ss == src.width * src.channels,
                    ds == self.width * src.channels,
                    x + src.width <= self.width,
            ;
        }
        let dst_stride: usize = (self.width as usize) * (self.channels as usize);
        let src_stride: usize = (src.width as usize) * (src.channels as usize);
        let offset: usize = (x as usize) * (src.channels as usize);
        let mut row: usize = 0;
        while row < src.height as usize
            invariant
                row <= rows,
                rows == src.height,
                top == y,
                ds == dst_stride,
                ss == src_stride,
                left == offset,
                ds > 0,
                ss > 0,
                0 <= left,
                left + ss <= ds,
                top + rows <= self.height,
                self.width == old(self).width,
                self.height == old(self).height,
                self.channels == old(self).channels,
                self.data@.len() == before.len(),
                before.len() == self.height * ds,
                src.data@.len() == rows * ss,
                total == before.len(),
                src_total == src.data@.len(),
                forall|i: int|
                    0 <= i < before.len() ==> #[trigger] self.data@[i] == if blit_reached(
                        ds,
                        top,
                        left,
                        row as int,
                        0,
                        i,
                    ) {
                        blit_cell(before, ds, src.data@, ss, rows, left, top, i)
                    } else {
                        before[i]
                    },
            decreases rows - row,
        {
            proof {
                lemma_row_start(top + row, self.height as int, ds);
                lemma_row_start(row as int, rows, ss);
            }
            let dst_start: usize = (y as usize + row) * dst_stride + offset;
            let src_start: usize = row * src_stride;
            let mut done: usize = 0;
            while done < src_stride
                invariant
                    done <= ss,
                    row < rows,
                    rows == src.height,
                    top == y,
                    ds == dst_stride,
                    ss == src_stride,
                    left == offset,
                    ds > 0,
                    ss > 0,
                    0 <= left,
                    left + ss <= ds,
                    top + rows <= self.height,
                    dst_start == (top + row) * ds + left,
                    src_start == row * ss,
                    (top + row) * ds + ds <= before.len(),
                    row * ss + ss <= src.data@.len(),
                    self.width == old(self).width,
                    self.height == old(self).height,
                    self.channels == old(self).channels,
                    self.data@.len() == before.len(),
                    total == before.len(),
                    src_total == src.data@.len(),
                    forall|i: int|
                        0 <= i < before.len() ==> #[trigger] self.data@[i] == if blit_reached(
                            ds,
                            top,
                            left,
                            row as int,
                            done as int,
                            i,
                        ) {
                            blit_cell(before, ds, src.data@, ss, rows, left, top, i)
                        } else {
                            before[i]
                        },
                decreases ss - done,
            {
                let value = src.data[src_start + done];
                let ghost held = self.data@;
                let target: usize = dst_start + done;
                self.data.set(target, value);
                proof {
                    lemma_fundamental_div_mod_converse(
                        target as int,
                        ds,
                        top + row,
                        left + done,
                    );
                    assert forall|i: int| 0 <= i < before.len() implies #[trigger] self.data@[i]
                        == if blit_reached(ds, top, left, row as int, done + 1, i) {
                        blit_cell(before, ds, src.data@, ss, rows, left, top, i)
                    } else {
                        before[i]
                    } by {
                        lemma_fundamental_div_mod(i, ds);
                        assert(ds * (top + row) == (top + row) * ds) by (nonlinear_arith);
                        if i != target {
                            assert(self.data@[i] == held[i]);
                        }
                    }
                }
                done += 1;
            }
            proof {
                assert forall|i: int| 0 <= i < before.len() implies #[trigger] self.data@[i]
                    == if blit_reached(ds, top, left, row + 1, 0, i) {
                    blit_cell(before, ds, src.data@, ss, rows, left, top, i)
                } else {
                    before[i]
                } by {
                    lemma_fundamental_div_mod(i, ds);
                }
            }
            row += 1;
        }
        assert(self.data@ =~= blitted(before, ds, src.data@, ss, rows, left, top));
    }
}

/// A well-formed buffer's byte count is its height times its stride.
pub proof fn lemma_buffer_bounds(width: u32, height: u32, channels: u8)
    ensures
        byte_count(width, height, channels) == height * (width * channels),
        height > 0 ==> width * channels <= byte_count(width, height, channels),
        0 <= width * channels,
{
    assert(byte_count(width, height, channels) == height * (width * channels))
        by (nonlinear_arith);
    assert(height > 0 ==> width * channels <= height * (width * channels)) by (nonlinear_arith);
    assert(0 <= width * channels) by (nonlinear_arith);
}

proof fn lemma_row_start(row: int, rows: int, stride: int)
    requires
        0 <= row < rows,
        0 <= stride,
    ensures
        0 <= row * stride,
        row * stride + stride <= rows * stride,
{
    assert(0 <= row * stride) by (nonlinear_arith)
        requires
            0 <= row,
            0 <= stride,
    ;
    assert(row * stride + stride <= rows * stride) by (nonlinear_arith)
        requires
            row + 1 <= rows,
            0 <= stride,
    ;
}

/// After a copy, the byte at `byte` of row `row` is the byte of the source
/// that was copied there, where the copy reaches it, and else what it was.
pub proof fn lemma_blitted_at(
    dst: Seq<u8>,
    dst_stride: int,
    src: Seq<u8>,
    src_stride: int,
    rows: int,
    left: int,
    top: int,
    row: int,
    byte: int,
)
    requires
        0 <= row,
        0 <= byte < dst_stride,
        row * dst_stride + byte < dst.len(),
    ensures
        blitted(dst, dst_stride, src, src_stride, rows, left, top)[row * dst_stride + byte] == if top
            <= row < top + rows && left <= byte < left + src_stride {
            src[(row - top) * src_stride + (byte - left)]
        } else {
            dst[row * dst_stride + byte]
        },
{
    assert(0 <= row * dst_stride) by (nonlinear_arith)
        requires
            0 <= row,
            0 < dst_stride,
    ;
    lemma_fundamental_div_mod_converse(row * dst_stride + byte, dst_stride, row, byte);
}

} // verus!
