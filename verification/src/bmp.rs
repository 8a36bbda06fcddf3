use crate::color::Color;
use crate::framebuffer::{lemma_grid_index, Framebuffer};
use vstd::arithmetic::div_mod::lemma_mul_mod_noop_left;
use vstd::prelude::*;

verus! {

/// The four little-endian bytes of the low 32 bits of `v`.
pub open spec fn u32_le(v: int) -> Seq<u8> {
    seq![
        (v % 0x100) as u8,
        (v / 0x100 % 0x100) as u8,
        (v / 0x10000 % 0x100) as u8,
        (v / 0x1000000 % 0x100) as u8,
    ]
}

/// The zero bytes that round a row of `w` pixels, 3 bytes each, up to a
/// multiple of four bytes.
pub open spec fn row_pad(w: int) -> int {
    (4 - (w * 3) % 4) % 4
}

pub open spec fn zero_bytes(k: int) -> Seq<u8> {
    Seq::new(k as nat, |i: int| 0u8)
}

/// One pixel's bytes, in file order: blue, green, red.
pub open spec fn px_bytes(c: Color) -> Seq<u8> {
    seq![c.b, c.g, c.r]
}

/// The bytes of the first `n` pixels of row `y`.
pub open spec fn row_bytes_upto(grid: Seq<Color>, w: int, y: int, n: int) -> Seq<u8>
    decreases n,
{
    if n <= 0 {
        Seq::empty()
    } else {
        row_bytes_upto(grid, w, y, n - 1) + px_bytes(grid[y * w + (n - 1)])
    }
}

/// The pixel data of the first `n` rows, top row first, each row padded
/// with zeros to a multiple of four bytes.
pub open spec fn rows_bytes_upto(grid: Seq<Color>, w: int, n: int) -> Seq<u8>
    decreases n,
{
    if n <= 0 {
        Seq::empty()
    } else {
        rows_bytes_upto(grid, w, n - 1) + row_bytes_upto(grid, w, n - 1, w) + zero_bytes(
            row_pad(w),
        )
    }
}

/// The 54-byte file header of an uncompressed `w` by `h` 24-bit bitmap:
/// the BM signature, the total file size, the zero reserved field, the
/// fixed pixel offset 54, the 40-byte metadata block size, width, height,
/// one color plane, 24 bits per pixel, and six zero fields (compression,
/// image size, both resolutions, colors used, important colors).
pub open spec fn bmp_header(w: int, h: int) -> Seq<u8> {
    seq![0x42u8, 0x4Du8] + u32_le(54 + w * h * 3) + u32_le(0) + u32_le(54) + u32_le(40) + u32_le(w)
        + u32_le(h) + seq![1u8, 0u8, 24u8, 0u8] + u32_le(0) + u32_le(0) + u32_le(0) + u32_le(0)
        + u32_le(0) + u32_le(0)
}

/// The complete encoded file: header, then row-major pixel data with the
/// top row written first.
pub open spec fn bmp_bytes(fb: Framebuffer) -> Seq<u8> {
    bmp_header(fb.width as int, fb.height as int) + rows_bytes_upto(
        fb.buffer@,
        fb.width as int,
        fb.height as int,
    )
}

/// Append the four little-endian bytes of the low 32 bits of `v`.
fn push_u32_le(out: &mut Vec<u8>, v: u128)
    ensures
        final(out)@ == old(out)@ + u32_le(v as int),
{
    out.push((v % 0x100) as u8);
    out.push((v / 0x100 % 0x100) as u8);
    out.push((v / 0x10000 % 0x100) as u8);
    out.push((v / 0x1000000 % 0x100) as u8);
    proof {
        assert(out@ =~= old(out)@ + u32_le(v as int));
    }
}

impl Framebuffer {
    /// The encoded bitmap file for this buffer, byte for byte.
    pub fn bmp_file_bytes(&self) -> (r: Vec<u8>)
        requires
            self.wf(),
        ensures
            r@ == bmp_bytes(*self),
    {
        let mut out: Vec<u8> = Vec::new();
        self.write_bmp_header(&mut out);
        self.write_pixel_data(&mut out);
        proof {
            assert(out@ =~= bmp_bytes(*self));
        }
        out
    }

    /// Append the 54 header bytes.
    fn write_bmp_header(&self, out: &mut Vec<u8>)
        requires
            self.wf(),
        ensures
            final(out)@ == old(out)@ + bmp_header(self.width as int, self.height as int),
    {
        let w: u128 = self.width as u128;
        let h: u128 = self.height as u128;
        // the grid length bounds width * height within usize
        let n: usize = self.buffer.len();
        proof {
            assert(w as int * h as int <= usize::MAX as int) by (nonlinear_arith)
                requires
                    w as int == self.width as int,
                    h as int == self.height as int,
                    self.width as int * self.height as int == n as int,
                    n as int <= usize::MAX as int,
            ;
        }
        let fs: u128 = 54 + w * h * 3;
        out.push(0x42);
        out.push(0x4D);
        push_u32_le(out, fs);
        push_u32_le(out, 0);
        push_u32_le(out, 54);
        push_u32_le(out, 40);
        push_u32_le(out, w);
        push_u32_le(out, h);
        out.push(1);
        out.push(0);
        out.push(24);
        out.push(0);
        push_u32_le(out, 0);
        push_u32_le(out, 0);
        push_u32_le(out, 0);
        push_u32_le(out, 0);
        push_u32_le(out, 0);
        push_u32_le(out, 0);
        proof {
            assert(out@ =~= old(out)@ + bmp_header(self.width as int, self.height as int));
        }
    }

    /// Append the pixel data: rows top to bottom, three bytes per pixel
    /// (blue, green, red), each row zero-padded to a multiple of four bytes.
    fn write_pixel_data(&self, out: &mut Vec<u8>)
        requires
            self.wf(),
        ensures
            final(out)@ == old(out)@ + rows_bytes_upto(
                self.buffer@,
                self.width as int,
                self.height as int,
            ),
    {
        let ghost grid = self.buffer@;
        let ghost ow = self.width as int;
        let wm: usize = self.width % 4;
        let pad: usize = (4 - (wm * 3) % 4) % 4;
        proof {
            lemma_mul_mod_noop_left(self.width as int, 3, 4);
            assert(pad as int == row_pad(ow));
        }
        proof {
            assert(out@ =~= old(out)@ + rows_bytes_upto(grid, ow, 0));
        }
        let mut y: usize = 0;
        while y < self.height
            invariant
                y <= self.height,
                self.wf(),
                ow == self.width as int,
                grid == self.buffer@,
                pad as int == row_pad(ow),
                out@ == old(out)@ + rows_bytes_upto(grid, ow, y as int),
            decreases self.height - y,
        {
            proof {
                assert(out@ =~= old(out)@ + rows_bytes_upto(grid, ow, y as int) + row_bytes_upto(
                    grid,
                    ow,
                    y as int,
                    0,
                ));
            }
            let mut x: usize = 0;
            while x < self.width
                invariant
                    x <= self.width,
                    y < self.height,
                    self.wf(),
                    ow == self.width as int,
                    grid == self.buffer@,
                    out@ == old(out)@ + rows_bytes_upto(grid, ow, y as int) + row_bytes_upto(
                        grid,
                        ow,
                        y as int,
                        x as int,
                    ),
                decreases self.width - x,
            {
                // the grid length bounds the row-major index within usize
                let n: usize = self.buffer.len();
                proof {
                    lemma_grid_index(ow, self.height as int, x as int, y as int);
                }
                let idx: usize = y * self.width + x;
                let px: Color = self.buffer[idx];
                out.push(px.b);
                out.push(px.g);
                out.push(px.r);
                proof {
                    assert(out@ =~= old(out)@ + rows_bytes_upto(grid, ow, y as int)
                        + row_bytes_upto(grid, ow, y as int, x as int + 1));
                }
                x = x + 1;
            }
            proof {
                assert(out@ =~= old(out)@ + rows_bytes_upto(grid, ow, y as int) + row_bytes_upto(
                    grid,
                    ow,
                    y as int,
                    ow,
                ) + zero_bytes(0));
            }
            let mut k: usize = 0;
            while k < pad
                invariant
                    k <= pad,
                    y < self.height,
                    self.wf(),
                    ow == self.width as int,
                    grid == self.buffer@,
                    pad as int == row_pad(ow),
                    out@ == old(out)@ + rows_bytes_upto(grid, ow, y as int) + row_bytes_upto(
                        grid,
                        ow,
                        y as int,
                        ow,
                    ) + zero_bytes(k as int),
                decreases pad - k,
            {
                out.push(0);
                proof {
                    assert(out@ =~= old(out)@ + rows_bytes_upto(grid, ow, y as int)
                        + row_bytes_upto(grid, ow, y as int, ow) + zero_bytes(k as int + 1));
                }
                k = k + 1;
            }
            proof {
                assert(out@ =~= old(out)@ + rows_bytes_upto(grid, ow, y as int + 1));
            }
            y = y + 1;
        }
    }
}


pub proof fn lemma_row_bytes_len(grid: Seq<Color>, w: int, y: int, n: int)
    requires
        n >= 0,
    ensures
        row_bytes_upto(grid, w, y, n).len() == 3 * n,
    decreases n,
{
    if n > 0 {
        lemma_row_bytes_len(grid, w, y, n - 1);
    }
}

pub proof fn lemma_rows_bytes_len(grid: Seq<Color>, w: int, n: int)
    requires
        n >= 0,
        w >= 0,
    ensures
        rows_bytes_upto(grid, w, n).len() == n * (3 * w + row_pad(w)),
    decreases n,
{
    let stride = 3 * w + row_pad(w);
    if n > 0 {
        lemma_rows_bytes_len(grid, w, n - 1);
        lemma_row_bytes_len(grid, w, n - 1, w);
        assert((n - 1) * stride + stride == n * stride) by (nonlinear_arith);
    } else {
        assert(0 * stride == 0) by (nonlinear_arith);
    }
}

/// The whole file is the 54 header bytes plus `height` padded rows.
pub proof fn lemma_bmp_len(fb: Framebuffer)
    requires
        fb.wf(),
    ensures
        bmp_bytes(fb).len() == 54 + fb.height * (3 * fb.width + row_pad(fb.width as int)),
{
    lemma_rows_bytes_len(fb.buffer@, fb.width as int, fb.height as int);
}

pub proof fn lemma_row_bytes_index(grid: Seq<Color>, w: int, y: int, n: int, x: int)
    requires
        0 <= x < n,
    ensures
        row_bytes_upto(grid, w, y, n)[3 * x] == grid[y * w + x].b,
        row_bytes_upto(grid, w, y, n)[3 * x + 1] == grid[y * w + x].g,
        row_bytes_upto(grid, w, y, n)[3 * x + 2] == grid[y * w + x].r,
    decreases n,
{
    lemma_row_bytes_len(grid, w, y, n - 1);
    if x < n - 1 {
        lemma_row_bytes_index(grid, w, y, n - 1, x);
    }
}

pub proof fn lemma_rows_bytes_index(grid: Seq<Color>, w: int, n: int, y: int, k: int)
    requires
        w >= 0,
        0 <= y < n,
        0 <= k < 3 * w + row_pad(w),
    ensures
        rows_bytes_upto(grid, w, n)[y * (3 * w + row_pad(w)) + k] == (row_bytes_upto(grid, w, y, w)
            + zero_bytes(row_pad(w)))[k],
    decreases n,
{
    let stride = 3 * w + row_pad(w);
    lemma_rows_bytes_len(grid, w, n - 1);
    lemma_row_bytes_len(grid, w, n - 1, w);
    if y == n - 1 {
        assert(rows_bytes_upto(grid, w, n) == rows_bytes_upto(grid, w, n - 1) + row_bytes_upto(
            grid,
            w,
            n - 1,
            w,
        ) + zero_bytes(row_pad(w)));
    } else {
        lemma_rows_bytes_index(grid, w, n - 1, y, k);
        assert(y * stride + k < (n - 1) * stride) by (nonlinear_arith)
            requires
                0 <= y <= n - 2,
                0 <= k < stride,
        ;
    }
}

/// Decoding recovers every pixel: in the encoded file, the blue, green
/// and red bytes of the pixel at (x, y) stand at offset
/// `54 + y * (3 width + pad) + 3 x`, so reading the byte stream back gives
/// the buffer's colors, in the row order actually produced (top row first).
pub proof fn lemma_bmp_round_trip(fb: Framebuffer, x: int, y: int)
    requires
        fb.wf(),
        0 <= x < fb.width,
        0 <= y < fb.height,
    ensures
        bmp_bytes(fb)[54 + y * (3 * fb.width + row_pad(fb.width as int)) + 3 * x] == fb.pixel_at(
            x,
            y,
        ).b,
        bmp_bytes(fb)[54 + y * (3 * fb.width + row_pad(fb.width as int)) + 3 * x + 1]
            == fb.pixel_at(x, y).g,
        bmp_bytes(fb)[54 + y * (3 * fb.width + row_pad(fb.width as int)) + 3 * x + 2]
            == fb.pixel_at(x, y).r,
{
    let grid = fb.buffer@;
    let w = fb.width as int;
    let h = fb.height as int;
    let stride = 3 * w + row_pad(w);
    lemma_rows_bytes_len(grid, w, h);
    lemma_row_bytes_len(grid, w, y, w);
    assert(0 <= y * stride + 3 * x && y * stride + 3 * x + 2 < h * stride) by (nonlinear_arith)
        requires
            0 <= y <= h - 1,
            0 <= x <= w - 1,
            stride >= 3 * w,
            w >= 1,
    ;
    lemma_rows_bytes_index(grid, w, h, y, 3 * x);
    lemma_rows_bytes_index(grid, w, h, y, 3 * x + 1);
    lemma_rows_bytes_index(grid, w, h, y, 3 * x + 2);
    lemma_row_bytes_index(grid, w, y, w, x);
}

} // verus!
