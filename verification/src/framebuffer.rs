use crate::color::Color;
use vstd::arithmetic::div_mod::{
    lemma_fundamental_div_mod, lemma_fundamental_div_mod_converse, lemma_mod_bound,
};
use vstd::prelude::*;

verus! {

/// A row-major grid of pixels together with a background color and the
/// current draw color. `index = y * width + x`.
pub struct Framebuffer {
    pub buffer: Vec<Color>,
    pub width: usize,
    pub height: usize,
    pub background_color: Color,
    pub current_color: Color,
}

/// Position `i` of a row-major grid of width `w` and height `h` holds the
/// pixel at column `i % w`, row `i / w`.
pub proof fn lemma_grid_coords(w: int, h: int, i: int)
    requires
        w >= 1,
        0 <= i < w * h,
    ensures
        0 <= i % w < w,
        0 <= i / w < h,
        i == w * (i / w) + i % w,
{
    lemma_fundamental_div_mod(i, w);
    lemma_mod_bound(i, w);
    let q = i / w;
    let r = i % w;
    assert(0 <= q < h) by (nonlinear_arith)
        requires
            w >= 1,
            0 <= i < w * h,
            i == w * q + r,
            0 <= r < w,
    ;
}

/// The position of the pixel at column `x`, row `y` lies in the grid, and
/// decomposes back into the same column and row.
pub proof fn lemma_grid_index(w: int, h: int, x: int, y: int)
    requires
        w >= 1,
        0 <= x < w,
        0 <= y < h,
    ensures
        0 <= y * w + x < w * h,
        (y * w + x) % w == x,
        (y * w + x) / w == y,
{
    assert(0 <= y * w + x < w * h) by (nonlinear_arith)
        requires
            w >= 1,
            0 <= x < w,
            0 <= y < h,
    ;
    lemma_fundamental_div_mod_converse(y * w + x, w, y, x);
}

pub open spec fn abs_i(v: int) -> int {
    if v < 0 {
        -v
    } else {
        v
    }
}

/// The unit step the line walker takes on one axis: toward `b` when the
/// two differ, and -1 (never taken) when they are equal.
pub open spec fn step_toward(a: int, b: int) -> int {
    if a < b {
        1
    } else {
        -1
    }
}

/// The points the integer line walker visits from (x, y) until it reaches
/// (x1, y1), carrying the error accumulator `err`: each step doubles the
/// error, moves x when `2 err >= dy`, moves y when `2 err <= dx`, and adds
/// `dy` / `dx` for the moves it made. `dx` is the absolute x distance,
/// `dy` the negated absolute y distance of the whole segment. The walk is
/// cut short if a step fails to approach the endpoint, which a run started
/// by `line_points` never does.
pub open spec fn line_points_from(
    x: int,
    y: int,
    x1: int,
    y1: int,
    dx: int,
    dy: int,
    sx: int,
    sy: int,
    err: int,
) -> Seq<(int, int)>
    decreases abs_i(x1 - x) + abs_i(y1 - y),
{
    if x == x1 && y == y1 {
        seq![(x, y)]
    } else {
        let e2 = 2 * err;
        let xn = if e2 >= dy {
            x + sx
        } else {
            x
        };
        let yn = if e2 <= dx {
            y + sy
        } else {
            y
        };
        let errn = err + (if e2 >= dy {
            dy
        } else {
            0
        }) + (if e2 <= dx {
            dx
        } else {
            0
        });
        if abs_i(x1 - xn) + abs_i(y1 - yn) < abs_i(x1 - x) + abs_i(y1 - y) {
            seq![(x, y)] + line_points_from(xn, yn, x1, y1, dx, dy, sx, sy, errn)
        } else {
            seq![(x, y)]
        }
    }
}

/// Every point of the straight segment from (x0, y0) to (x1, y1), in walk
/// order, endpoints included.
pub open spec fn line_points(x0: int, y0: int, x1: int, y1: int) -> Seq<(int, int)> {
    line_points_from(
        x0,
        y0,
        x1,
        y1,
        abs_i(x1 - x0),
        -abs_i(y1 - y0),
        step_toward(x0, x1),
        step_toward(y0, y1),
        abs_i(x1 - x0) - abs_i(y1 - y0),
    )
}

/// Whether grid position `i` (column `i % w`, row `i / w`) is one of `pts`.
pub open spec fn covers_pixel(pts: Seq<(int, int)>, w: int, i: int) -> bool {
    exists|k: int| 0 <= k < pts.len() && pts[k] == (i % w, i / w)
}

/// The grid after painting every listed point with `c`; points outside the
/// grid fall on no position and are dropped.
pub open spec fn paint_points(grid: Seq<Color>, w: int, pts: Seq<(int, int)>, c: Color) -> Seq<
    Color,
> {
    Seq::new(
        grid.len(),
        |i: int|
            if covers_pixel(pts, w, i) {
                c
            } else {
                grid[i]
            },
    )
}

/// Painting one more point is one in-bounds update of the grid, or nothing
/// when the point lies outside.
pub proof fn lemma_paint_push(
    grid: Seq<Color>,
    w: int,
    h: int,
    pts: Seq<(int, int)>,
    p: (int, int),
    c: Color,
)
    requires
        w >= 1,
        grid.len() == w * h,
    ensures
        0 <= p.0 < w && 0 <= p.1 < h ==> paint_points(grid, w, pts.push(p), c) == paint_points(
            grid,
            w,
            pts,
            c,
        ).update(p.1 * w + p.0, c),
        !(0 <= p.0 < w && 0 <= p.1 < h) ==> paint_points(grid, w, pts.push(p), c) == paint_points(
            grid,
            w,
            pts,
            c,
        ),
{
    let pushed = paint_points(grid, w, pts.push(p), c);
    let plain = paint_points(grid, w, pts, c);
    if 0 <= p.0 < w && 0 <= p.1 < h {
        lemma_grid_index(w, h, p.0, p.1);
        let idx = p.1 * w + p.0;
        assert forall|i: int| 0 <= i < grid.len() implies pushed[i] == plain.update(idx, c)[i] by {
            lemma_grid_coords(w, h, i);
            if i == idx {
                assert(i % w == p.0 && i / w == p.1);
                assert(pts.push(p)[pts.len() as int] == (i % w, i / w));
                assert(covers_pixel(pts.push(p), w, i));
                assert(pushed[i] == c);
            } else {
                assert((i % w, i / w) != p) by {
                    if (i % w, i / w) == p {
                        assert(i == w * (i / w) + i % w);
                        assert(idx == w * (idx / w) + idx % w);
                    }
                }
                if covers_pixel(pts.push(p), w, i) {
                    let k = choose|k: int|
                        0 <= k < pts.push(p).len() && pts.push(p)[k] == (i % w, i / w);
                    assert(k < pts.len());
                    assert(pts[k] == (i % w, i / w));
                    assert(covers_pixel(pts, w, i));
                }
                if covers_pixel(pts, w, i) {
                    let k = choose|k: int| 0 <= k < pts.len() && pts[k] == (i % w, i / w);
                    assert(pts.push(p)[k] == (i % w, i / w));
                    assert(covers_pixel(pts.push(p), w, i));
                }
                assert(pushed[i] == plain[i]);
            }
        }
        assert(pushed =~= plain.update(idx, c));
    } else {
        assert forall|i: int| 0 <= i < grid.len() implies pushed[i] == plain[i] by {
            lemma_grid_coords(w, h, i);
            assert((i % w, i / w) != p);
            if covers_pixel(pts.push(p), w, i) {
                let k = choose|k: int|
                    0 <= k < pts.push(p).len() && pts.push(p)[k] == (i % w, i / w);
                assert(k < pts.len());
                assert(pts[k] == (i % w, i / w));
                assert(covers_pixel(pts, w, i));
            }
            if covers_pixel(pts, w, i) {
                let k = choose|k: int| 0 <= k < pts.len() && pts[k] == (i % w, i / w);
                assert(pts.push(p)[k] == (i % w, i / w));
                assert(covers_pixel(pts.push(p), w, i));
            }
        }
        assert(pushed =~= plain);
    }
}

impl Framebuffer {
    /// The grid always holds exactly one color per coordinate pair.
    pub open spec fn wf(self) -> bool {
        self.buffer@.len() == self.width * self.height && self.width >= 1 && self.height >= 1
    }

    pub open spec fn in_bounds(self, x: int, y: int) -> bool {
        0 <= x < self.width && 0 <= y < self.height
    }

    /// The pixel stored at column `x`, row `y`.
    pub open spec fn pixel_at(self, x: int, y: int) -> Color {
        self.buffer@[y * self.width + x]
    }

    /// Everything but the pixel grid is equal in the two buffers.
    pub open spec fn same_frame(self, other: Framebuffer) -> bool {
        &&& self.width == other.width
        &&& self.height == other.height
        &&& self.background_color == other.background_color
        &&& self.current_color == other.current_color
    }

    /// A fresh buffer: every pixel black, background black, current color white.
    pub fn new(width: usize, height: usize) -> (fb: Framebuffer)
        requires
            width >= 1,
            height >= 1,
            width * height <= usize::MAX,
        ensures
            fb.wf(),
            fb.width == width,
            fb.height == height,
            fb.background_color == (Color { r: 0, g: 0, b: 0 }),
            fb.current_color == (Color { r: 255, g: 255, b: 255 }),
            forall|i: int|
                0 <= i < fb.buffer@.len() ==> fb.buffer@[i] == (Color { r: 0, g: 0, b: 0 }),
    {
        let n: usize = width * height;
        let black = Color::new(0, 0, 0);
        let mut buffer: Vec<Color> = Vec::new();
        while buffer.len() < n
            invariant
                buffer@.len() <= n,
                forall|i: int| 0 <= i < buffer@.len() ==> buffer@[i] == black,
                black == (Color { r: 0, g: 0, b: 0 }),
            decreases n - buffer@.len(),
        {
            buffer.push(black);
        }
        Framebuffer {
            buffer,
            width,
            height,
            background_color: black,
            current_color: Color::new(255, 255, 255),
        }
    }

    /// Repaint every pixel with the background color as it is now; the
    /// dimensions and both stored colors stay as they were.
    pub fn clear(&mut self)
        requires
            old(self).wf(),
        ensures
            final(self).wf(),
            final(self).same_frame(*old(self)),
            final(self).buffer@.len() == old(self).buffer@.len(),
            forall|i: int|
                0 <= i < final(self).buffer@.len() ==> final(self).buffer@[i] == old(
                    self,
                ).background_color,
    {
        let n: usize = self.buffer.len();
        let mut i: usize = 0;
        while i < n
            invariant
                self.wf(),
                self.same_frame(*old(self)),
                n == self.buffer@.len() == old(self).buffer@.len(),
                i <= n,
                forall|k: int| 0 <= k < i ==> self.buffer@[k] == old(self).background_color,
            decreases n - i,
        {
            let bg = self.background_color;
            self.buffer[i] = bg;
            i = i + 1;
        }
    }

    /// Set the pixel at (x, y) to the current color; out-of-bounds
    /// coordinates are silently clipped, never an error.
    pub fn point(&mut self, x: i32, y: i32)
        requires
            old(self).wf(),
        ensures
            final(self).wf(),
            final(self).same_frame(*old(self)),
            old(self).in_bounds(x as int, y as int) ==> final(self).buffer@ == old(
                self,
            ).buffer@.update(
                y as int * old(self).width as int + x as int,
                old(self).current_color,
            ),
            !old(self).in_bounds(x as int, y as int) ==> final(self).buffer@ == old(self).buffer@,
    {
        let c = self.current_color;
        self.set_pixel(x, y, c);
    }

    /// The pixel at (x, y), or nothing when the coordinates are out of bounds.
    pub fn get_pixel(&self, x: i32, y: i32) -> (r: Option<Color>)
        requires
            self.wf(),
        ensures
            self.in_bounds(x as int, y as int) ==> r == Some(
                self.pixel_at(x as int, y as int),
            ),
            !self.in_bounds(x as int, y as int) ==> r.is_none(),
    {
        if x >= 0 && y >= 0 && (x as usize) < self.width && (y as usize) < self.height {
            // the grid length bounds width * height within usize
            let n: usize = self.buffer.len();
            proof {
                lemma_grid_index(
                    self.width as int,
                    self.height as int,
                    x as int,
                    y as int,
                );
            }
            let idx: usize = y as usize * self.width + x as usize;
            Some(self.buffer[idx])
        } else {
            None
        }
    }

    pub fn set_background_color(&mut self, color: Color)
        ensures
            final(self).background_color == color,
            final(self).buffer@ == old(self).buffer@,
            final(self).width == old(self).width,
            final(self).height == old(self).height,
            final(self).current_color == old(self).current_color,
    {
        self.background_color = color;
    }

    pub fn set_current_color(&mut self, color: Color)
        ensures
            final(self).current_color == color,
            final(self).buffer@ == old(self).buffer@,
            final(self).width == old(self).width,
            final(self).height == old(self).height,
            final(self).background_color == old(self).background_color,
    {
        self.current_color = color;
    }

    /// Set the pixel at (x, y) to an explicit color, bypassing the current
    /// color; out-of-bounds coordinates are silently clipped.
    pub fn set_pixel(&mut self, x: i32, y: i32, color: Color)
        requires
            old(self).wf(),
        ensures
            final(self).wf(),
            final(self).same_frame(*old(self)),
            old(self).in_bounds(x as int, y as int) ==> final(self).buffer@ == old(
                self,
            ).buffer@.update(y as int * old(self).width as int + x as int, color),
            !old(self).in_bounds(x as int, y as int) ==> final(self).buffer@ == old(self).buffer@,
    {
        if x >= 0 && y >= 0 && (x as usize) < self.width && (y as usize) < self.height {
            // the grid length bounds width * height within usize
            let n: usize = self.buffer.len();
            proof {
                lemma_grid_index(
                    self.width as int,
                    self.height as int,
                    x as int,
                    y as int,
                );
            }
            let idx: usize = y as usize * self.width + x as usize;
            self.buffer[idx] = color;
        }
    }

    /// Rasterize the straight segment from (x0, y0) to (x1, y1) with the
    /// given color by integer error accumulation: exactly the points of
    /// `line_points` are painted, endpoints included, and points falling
    /// outside the grid are clipped.
    pub fn draw_line(&mut self, x0: i32, y0: i32, x1: i32, y1: i32, color: Color)
        requires
            old(self).wf(),
        ensures
            final(self).wf(),
            final(self).same_frame(*old(self)),
            final(self).buffer@ == paint_points(
                old(self).buffer@,
                old(self).width as int,
                line_points(x0 as int, y0 as int, x1 as int, y1 as int),
                color,
            ),
    {
        let ghost x0i = x0 as int;
        let ghost y0i = y0 as int;
        let ghost x1i = x1 as int;
        let ghost y1i = y1 as int;
        let dxv: i64 = x1 as i64 - x0 as i64;
        let dx: i64 = if dxv < 0 {
            -dxv
        } else {
            dxv
        };
        let dyv: i64 = y1 as i64 - y0 as i64;
        let nd: i64 = if dyv < 0 {
            -dyv
        } else {
            dyv
        };
        let dy: i64 = -nd;
        let sx: i64 = if x0 < x1 {
            1
        } else {
            -1
        };
        let sy: i64 = if y0 < y1 {
            1
        } else {
            -1
        };
        let mut err: i128 = dx as i128 + dy as i128;
        let mut cx: i64 = x0 as i64;
        let mut cy: i64 = y0 as i64;
        let ghost obuf = self.buffer@;
        let ghost ow = self.width as int;
        let ghost oh = self.height as int;
        let ghost full = line_points(x0i, y0i, x1i, y1i);
        let ghost mut visited: Seq<(int, int)> = Seq::empty();
        let ghost mut a: int = 0;
        let ghost mut b: int = 0;
        proof {
            assert(Seq::<(int, int)>::empty() + line_points_from(
                x0i,
                y0i,
                x1i,
                y1i,
                dx as int,
                dy as int,
                sx as int,
                sy as int,
                err as int,
            ) =~= full);
            assert(paint_points(obuf, ow, visited, color) =~= obuf);
            assert(dx as int * (1 + b) + dy as int * (1 + a) == dx as int + dy as int)
                by (nonlinear_arith)
                requires
                    a == 0,
                    b == 0,
            ;
        }
        loop
            invariant_except_break
                full == visited + line_points_from(
                    cx as int,
                    cy as int,
                    x1i,
                    y1i,
                    dx as int,
                    dy as int,
                    sx as int,
                    sy as int,
                    err as int,
                ),
            invariant
                self.wf(),
                self.same_frame(*old(self)),
                self.width as int == ow,
                self.height as int == oh,
                obuf.len() == self.buffer@.len(),
                0 <= dx as int <= 0xFFFFFFFF,
                -0xFFFFFFFF <= dy as int <= 0,
                nd == -dy,
                dx as int == abs_i(x1i - x0i),
                nd as int == abs_i(y1i - y0i),
                sx as int == step_toward(x0i, x1i),
                sy as int == step_toward(y0i, y1i),
                x0i == x0 as int,
                x1i == x1 as int,
                y0i == y0 as int,
                y1i == y1 as int,
                abs_i(cx as int - x0i) == a,
                abs_i(x1i - cx as int) == dx as int - a,
                abs_i(cy as int - y0i) == b,
                abs_i(y1i - cy as int) == nd as int - b,
                err as int == dx as int * (1 + b) + dy as int * (1 + a),
                self.buffer@ == paint_points(obuf, ow, visited, color),
            ensures
                self.wf(),
                self.same_frame(*old(self)),
                self.buffer@ == paint_points(obuf, ow, full, color),
            decreases (dx as int - a) + (nd as int - b),
        {
            let ghost vis0 = visited;
            let ghost cx0 = cx as int;
            let ghost cy0 = cy as int;
            let ghost a0 = a;
            let ghost b0 = b;
            let ghost err0 = err as int;
            self.set_pixel(cx as i32, cy as i32, color);
            proof {
                lemma_paint_push(obuf, ow, oh, vis0, (cx0, cy0), color);
                visited = vis0.push((cx0, cy0));
            }
            if cx == x1 as i64 && cy == y1 as i64 {
                proof {
                    assert(cx0 == x1i && cy0 == y1i);
                    assert(line_points_from(
                        cx0,
                        cy0,
                        x1i,
                        y1i,
                        dx as int,
                        dy as int,
                        sx as int,
                        sy as int,
                        err0,
                    ) == seq![(cx0, cy0)]);
                    assert(vis0 + seq![(cx0, cy0)] =~= visited);
                    assert(visited == full);
                }
                break;
            }
            proof {
                assert(0 <= dx as int * (1 + b) <= 0x100000000 * 0x100000001) by (nonlinear_arith)
                    requires
                        0 <= dx as int <= 0xFFFFFFFF,
                        0 <= b <= 0xFFFFFFFF,
                ;
                assert(-(0x100000000 * 0x100000001) <= dy as int * (1 + a) <= 0)
                    by (nonlinear_arith)
                    requires
                        -0xFFFFFFFF <= dy as int <= 0,
                        0 <= a <= 0xFFFFFFFF,
                ;
            }
            let e2: i128 = 2 * err;
            if e2 >= dy as i128 {
                proof {
                    if a == dx as int {
                        assert(cx as int == x1i);
                        assert(b < nd as int);
                        assert(2 * (dx as int * (1 + b) + dy as int * (1 + a)) < dy as int)
                            by (nonlinear_arith)
                            requires
                                b <= nd as int - 1,
                                nd as int >= 1,
                                dx as int >= 0,
                                a == dx as int,
                                dy == -nd,
                        ;
                        assert(false);
                    }
                    assert(dy as int * (1 + (a + 1)) == dy as int * (1 + a) + dy as int)
                        by (nonlinear_arith);
                }
                err = err + dy as i128;
                cx = cx + sx;
                proof {
                    a = a + 1;
                }
            }
            if e2 <= dx as i128 {
                proof {
                    if b == nd as int {
                        assert(cy0 == y1i);
                        assert(a0 < dx as int);
                        assert(2 * (dx as int * (1 + b0) + dy as int * (1 + a0)) > dx as int)
                            by (nonlinear_arith)
                            requires
                                a0 <= dx as int - 1,
                                dx as int >= 1,
                                b0 == nd as int,
                                dy == -nd,
                                nd as int >= 0,
                        ;
                        assert(false);
                    }
                    assert(dx as int * (1 + (b + 1)) == dx as int * (1 + b) + dx as int)
                        by (nonlinear_arith);
                }
                err = err + dx as i128;
                cy = cy + sy;
                proof {
                    b = b + 1;
                }
            }
            proof {
                let e2i = 2 * err0;
                let xn = if e2i >= dy as int {
                    cx0 + sx as int
                } else {
                    cx0
                };
                let yn = if e2i <= dx as int {
                    cy0 + sy as int
                } else {
                    cy0
                };
                let errn = err0 + (if e2i >= dy as int {
                    dy as int
                } else {
                    0
                }) + (if e2i <= dx as int {
                    dx as int
                } else {
                    0
                });
                assert(cx as int == xn);
                assert(cy as int == yn);
                assert(err as int == errn);
                assert(a + b > a0 + b0);
                assert(abs_i(x1i - cx as int) == dx as int - a);
                assert(abs_i(y1i - cy as int) == nd as int - b);
                assert(abs_i(x1i - xn) + abs_i(y1i - yn) < abs_i(x1i - cx0) + abs_i(y1i - cy0));
                let rest = line_points_from(
                    xn,
                    yn,
                    x1i,
                    y1i,
                    dx as int,
                    dy as int,
                    sx as int,
                    sy as int,
                    errn,
                );
                assert(line_points_from(
                    cx0,
                    cy0,
                    x1i,
                    y1i,
                    dx as int,
                    dy as int,
                    sx as int,
                    sy as int,
                    err0,
                ) == seq![(cx0, cy0)] + rest);
                assert(vis0 + (seq![(cx0, cy0)] + rest) =~= vis0.push((cx0, cy0)) + rest);
                assert(full == visited + rest);
            }
        }
    }
}

} // verus!
