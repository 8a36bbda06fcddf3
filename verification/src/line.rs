use crate::color::Color;
use crate::framebuffer::{
    lemma_grid_coords, lemma_grid_index, line_points, paint_points, Framebuffer,
};
use vstd::arithmetic::div_mod::{lemma_fundamental_div_mod, lemma_mod_bound};
use vstd::prelude::*;

verus! {

/// A polygon vertex with integer coordinates; the third coordinate is
/// carried along but ignored by rasterization.
#[derive(Clone, Copy, Debug, PartialEq, Eq, Structural)]
pub struct Vertex {
    pub x: i32,
    pub y: i32,
    pub z: i32,
}

impl Vertex {
    pub fn new(x: i32, y: i32, z: i32) -> (v: Vertex)
        ensures
            v == (Vertex { x, y, z }),
    {
        Vertex { x, y, z }
    }

    /// The two coordinates rasterization looks at.
    pub open spec fn xy(self) -> (int, int) {
        (self.x as int, self.y as int)
    }
}

/// The vertex loop as a plain sequence of coordinate pairs.
pub open spec fn vertex_pts(vs: Seq<Vertex>) -> Seq<(int, int)> {
    vs.map_values(|v: Vertex| v.xy())
}

/// Round `n / d` (for d > 0) to the nearest integer, halves away from zero.
pub open spec fn round_div(n: int, d: int) -> int {
    if n >= 0 {
        (2 * n + d) / (2 * d)
    } else {
        -((2 * (-n) + d) / (2 * d))
    }
}

/// Saturate an integer into the i32 range.
pub open spec fn clamp_i32(v: int) -> int {
    if v < -0x80000000 {
        -0x80000000
    } else if v > 0x7FFFFFFF {
        0x7FFFFFFF
    } else {
        v
    }
}

/// Whether scanline `y` crosses the edge between `p` and `q`: with the
/// endpoints ordered so the smaller y comes first, `y` must fall in the
/// half-open range `[y_low, y_high)`.
pub open spec fn edge_crosses(p: (int, int), q: (int, int), y: int) -> bool {
    let lo = if p.1 <= q.1 {
        p
    } else {
        q
    };
    let hi = if p.1 <= q.1 {
        q
    } else {
        p
    };
    lo.1 <= y && y < hi.1
}

/// The x coordinate where scanline `y` crosses the edge between `p` and
/// `q`: linear interpolation `x_low + (y - y_low) (x_high - x_low) /
/// (y_high - y_low)`, rounded to the nearest integer and saturated to the
/// i32 range.
pub open spec fn edge_cross_x(p: (int, int), q: (int, int), y: int) -> int {
    let lo = if p.1 <= q.1 {
        p
    } else {
        q
    };
    let hi = if p.1 <= q.1 {
        q
    } else {
        p
    };
    clamp_i32(round_div(lo.0 * (hi.1 - lo.1) + (y - lo.1) * (hi.0 - lo.0), hi.1 - lo.1))
}

/// The crossings of scanline `y` with the first `n` edges of the closed
/// vertex loop, in edge order; edge `i` runs from `pts[i]` to
/// `pts[(i + 1) % len]`.
pub open spec fn crossings_upto(pts: Seq<(int, int)>, y: int, n: int) -> Seq<int>
    decreases n,
{
    if n <= 0 {
        Seq::empty()
    } else {
        let prev = crossings_upto(pts, y, n - 1);
        let p = pts[n - 1];
        let q = pts[n % pts.len() as int];
        if edge_crosses(p, q, y) {
            prev.push(edge_cross_x(p, q, y))
        } else {
            prev
        }
    }
}

/// Insert `v` into `s` just before the first element greater than it.
pub open spec fn insert_sorted(s: Seq<int>, v: int) -> Seq<int>
    decreases s.len(),
{
    if s.len() == 0 {
        seq![v]
    } else if v < s[0] {
        seq![v] + s
    } else {
        seq![s[0]] + insert_sorted(s.drop_first(), v)
    }
}

/// The first `n` elements of `s`, insertion-sorted.
pub open spec fn sort_upto(s: Seq<int>, n: int) -> Seq<int>
    decreases n,
{
    if n <= 0 {
        Seq::empty()
    } else {
        insert_sorted(sort_upto(s, n - 1), s[n - 1])
    }
}

/// All crossings of scanline `y` with the vertex loop, sorted ascending.
pub open spec fn scan_crossings(pts: Seq<(int, int)>, y: int) -> Seq<int> {
    let cr = crossings_upto(pts, y, pts.len() as int);
    sort_upto(cr, cr.len() as int)
}

/// Whether column `x` of scanline `y` lies inside the polygon under the
/// even-odd rule: some consecutively paired crossings (first with second,
/// third with fourth, ...) enclose it; a trailing unpaired crossing pairs
/// with nothing.
pub open spec fn scan_covered(pts: Seq<(int, int)>, y: int, x: int) -> bool {
    let s = scan_crossings(pts, y);
    exists|j: int| 0 <= j && 2 * j + 1 < s.len() && #[trigger] s[2 * j] <= x <= s[2 * j + 1]
}

/// Like `scan_covered`, restricted to the first `m` crossing pairs.
pub open spec fn covered_pairs(s: Seq<int>, m: int, x: int) -> bool {
    exists|j: int| 0 <= j < m && 2 * j + 1 < s.len() && #[trigger] s[2 * j] <= x <= s[2 * j + 1]
}

/// The grid after an even-odd scanline fill of the vertex loop with `c`:
/// exactly the covered positions are repainted.
pub open spec fn fill_paint(grid: Seq<Color>, w: int, pts: Seq<(int, int)>, c: Color) -> Seq<
    Color,
> {
    Seq::new(
        grid.len(),
        |i: int|
            if scan_covered(pts, i / w, i % w) {
                c
            } else {
                grid[i]
            },
    )
}

/// The smallest y among the first `k` vertices (k >= 1).
pub open spec fn min_y_upto(pts: Seq<(int, int)>, k: int) -> int
    decreases k,
{
    if k <= 1 {
        pts[0].1
    } else {
        let m = min_y_upto(pts, k - 1);
        if pts[k - 1].1 < m {
            pts[k - 1].1
        } else {
            m
        }
    }
}

/// The largest y among the first `k` vertices (k >= 1).
pub open spec fn max_y_upto(pts: Seq<(int, int)>, k: int) -> int
    decreases k,
{
    if k <= 1 {
        pts[0].1
    } else {
        let m = max_y_upto(pts, k - 1);
        if pts[k - 1].1 > m {
            pts[k - 1].1
        } else {
            m
        }
    }
}

pub proof fn lemma_min_max_y_bound(pts: Seq<(int, int)>, k: int, j: int)
    requires
        0 <= j < k,
    ensures
        min_y_upto(pts, k) <= pts[j].1,
        pts[j].1 <= max_y_upto(pts, k),
    decreases k,
{
    if k > 1 && j < k - 1 {
        lemma_min_max_y_bound(pts, k - 1, j);
    }
}

/// A scanline outside `[min_y, max_y)` crosses no edge of the loop.
pub proof fn lemma_no_crossings_outside(pts: Seq<(int, int)>, y: int, n: int)
    requires
        pts.len() >= 1,
        0 <= n <= pts.len(),
        y < min_y_upto(pts, pts.len() as int) || y >= max_y_upto(pts, pts.len() as int),
    ensures
        crossings_upto(pts, y, n) == Seq::<int>::empty(),
    decreases n,
{
    if n > 0 {
        lemma_no_crossings_outside(pts, y, n - 1);
        let p = pts[n - 1];
        let q = pts[n % pts.len() as int];
        lemma_min_max_y_bound(pts, pts.len() as int, n - 1);
        lemma_min_max_y_bound(pts, pts.len() as int, n % pts.len() as int);
        assert(!edge_crosses(p, q, y));
    }
}

/// A scanline outside `[min_y, max_y)` covers no pixel.
pub proof fn lemma_not_covered_outside(pts: Seq<(int, int)>, y: int, x: int)
    requires
        pts.len() >= 1,
        y < min_y_upto(pts, pts.len() as int) || y >= max_y_upto(pts, pts.len() as int),
    ensures
        !scan_covered(pts, y, x),
{
    lemma_no_crossings_outside(pts, y, pts.len() as int);
}

/// Inserting an element at the position the insertion scan finds gives
/// exactly the specified insertion: all elements before it are at most `v`
/// and the one after it, if any, exceeds `v`.
pub proof fn lemma_insert_at(s: Seq<int>, v: int, j: int)
    requires
        0 <= j <= s.len(),
        forall|k: int| 0 <= k < j ==> s[k] <= v,
        j < s.len() ==> v < s[j],
    ensures
        insert_sorted(s, v) == s.subrange(0, j).push(v) + s.subrange(j, s.len() as int),
    decreases s.len(),
{
    if s.len() == 0 {
        assert(insert_sorted(s, v) =~= s.subrange(0, j).push(v) + s.subrange(j, s.len() as int));
    } else if v < s[0] {
        assert(j == 0);
        assert(seq![v] + s =~= s.subrange(0, 0).push(v) + s.subrange(0, s.len() as int));
    } else {
        assert(j >= 1);
        lemma_insert_at(s.drop_first(), v, j - 1);
        assert(seq![s[0]] + (s.drop_first().subrange(0, j - 1).push(v) + s.drop_first().subrange(
            j - 1,
            s.len() - 1,
        )) =~= s.subrange(0, j).push(v) + s.subrange(j, s.len() as int));
    }
}

/// The integer view of an i32 sequence.
pub open spec fn int_seq(s: Seq<i32>) -> Seq<int> {
    s.map_values(|v: i32| v as int)
}

/// Insert `v` into the (sorted) vector just before the first element
/// greater than it.
fn sorted_insert(res: &mut Vec<i32>, v: i32)
    ensures
        int_seq(final(res)@) == insert_sorted(int_seq(old(res)@), v as int),
{
    let n: usize = res.len();
    let mut j: usize = 0;
    while j < n && res[j] <= v
        invariant
            j <= n,
            n == res@.len(),
            *res == *old(res),
            forall|k: int| 0 <= k < j ==> res@[k] <= v,
        decreases n - j,
    {
        j = j + 1;
    }
    res.insert(j, v);
    proof {
        let s = int_seq(old(res)@);
        lemma_insert_at(s, v as int, j as int);
        assert(int_seq(res@) =~= s.subrange(0, j as int).push(v as int) + s.subrange(
            j as int,
            s.len() as int,
        ));
    }
}

/// Insertion sort, ascending.
fn sort_vec(xs: &Vec<i32>) -> (r: Vec<i32>)
    ensures
        int_seq(r@) == sort_upto(int_seq(xs@), xs@.len() as int),
{
    let n: usize = xs.len();
    let mut r: Vec<i32> = Vec::new();
    let mut k: usize = 0;
    while k < n
        invariant
            k <= n,
            n == xs@.len(),
            int_seq(r@) == sort_upto(int_seq(xs@), k as int),
        decreases n - k,
    {
        sorted_insert(&mut r, xs[k]);
        k = k + 1;
    }
    r
}

/// Where scanline `y` crosses the edge from `v1` to `v2`, if it does:
/// exactly `edge_crosses` / `edge_cross_x` of the two endpoints.
fn edge_crossing_at(v1: Vertex, v2: Vertex, y: i64) -> (r: Option<i32>)
    ensures
        r.is_some() <==> edge_crosses(v1.xy(), v2.xy(), y as int),
        r.is_some() ==> r->Some_0 as int == edge_cross_x(v1.xy(), v2.xy(), y as int),
{
    let swap: bool = v1.y > v2.y;
    let x1: i64 = if swap {
        v2.x as i64
    } else {
        v1.x as i64
    };
    let y1: i64 = if swap {
        v2.y as i64
    } else {
        v1.y as i64
    };
    let x2: i64 = if swap {
        v1.x as i64
    } else {
        v2.x as i64
    };
    let y2: i64 = if swap {
        v1.y as i64
    } else {
        v2.y as i64
    };
    if y >= y1 && y < y2 {
        let den: i64 = y2 - y1;
        let yd: i64 = y - y1;
        let xd: i64 = x2 - x1;
        proof {
            assert(yd as int * xd as int <= 0x100000000 * 0x100000000 && yd as int * xd as int
                >= -(0x100000000 * 0x100000000)) by (nonlinear_arith)
                requires
                    0 <= yd as int <= 0x100000000,
                    -0x100000000 <= xd as int <= 0x100000000,
            ;
            assert(x1 as int * den as int <= 0x80000000 * 0x100000000 && x1 as int * den as int
                >= -(0x80000000 * 0x100000000)) by (nonlinear_arith)
                requires
                    -0x80000000 <= x1 as int <= 0x80000000,
                    0 <= den as int <= 0x100000000,
            ;
        }
        let num: i128 = yd as i128 * xd as i128;
        let tot: i128 = x1 as i128 * den as i128 + num;
        let dd: u128 = den as u128;
        let ta: u128 = if tot >= 0 {
            tot as u128
        } else {
            (-tot) as u128
        };
        let qa: u128 = (2 * ta + dd) / (2 * dd);
        proof {
            let nn = 2 * ta as int + dd as int;
            let dv = 2 * dd as int;
            lemma_fundamental_div_mod(nn, dv);
            lemma_mod_bound(nn, dv);
            assert(0 <= nn / dv && nn / dv <= nn) by (nonlinear_arith)
                requires
                    nn == dv * (nn / dv) + nn % dv,
                    0 <= nn % dv < dv,
                    dv >= 2,
                    nn >= 0,
            ;
        }
        let xi: i32 = if tot >= 0 {
            if qa > 0x7FFFFFFF {
                0x7FFFFFFF
            } else {
                qa as i32
            }
        } else {
            if qa >= 0x80000000 {
                -0x80000000
            } else {
                -(qa as i32)
            }
        };
        Some(xi)
    } else {
        None
    }
}



/// Non-decreasing order.
pub open spec fn sorted_asc(s: Seq<int>) -> bool {
    forall|i: int, j: int| 0 <= i < j < s.len() ==> s[i] <= s[j]
}

pub proof fn lemma_insert_sorted_len(s: Seq<int>, v: int)
    ensures
        insert_sorted(s, v).len() == s.len() + 1,
    decreases s.len(),
{
    if s.len() > 0 && !(v < s[0]) {
        lemma_insert_sorted_len(s.drop_first(), v);
    }
}

/// A lower bound on a sequence and the inserted value bounds the insertion.
proof fn lemma_insert_sorted_min(s: Seq<int>, v: int, b: int, k: int)
    requires
        b <= v,
        forall|t: int| 0 <= t < s.len() ==> b <= s[t],
        0 <= k < insert_sorted(s, v).len(),
    ensures
        b <= insert_sorted(s, v)[k],
    decreases s.len(),
{
    if s.len() == 0 {
    } else if v < s[0] {
    } else {
        if k >= 1 {
            assert forall|t: int| 0 <= t < s.drop_first().len() implies b <= s.drop_first()[t] by {
                assert(s.drop_first()[t] == s[t + 1]);
            }
            lemma_insert_sorted_min(s.drop_first(), v, b, k - 1);
        }
    }
}

pub proof fn lemma_insert_sorted_sorted(s: Seq<int>, v: int)
    requires
        sorted_asc(s),
    ensures
        sorted_asc(insert_sorted(s, v)),
    decreases s.len(),
{
    let r = insert_sorted(s, v);
    if s.len() == 0 {
    } else if v < s[0] {
        assert forall|i: int, j: int| 0 <= i < j < r.len() implies r[i] <= r[j] by {
            if i >= 1 {
                assert(r[i] == s[i - 1] && r[j] == s[j - 1]);
            } else {
                assert(r[j] == s[j - 1]);
                assert(s[0] <= s[j - 1]);
            }
        }
    } else {
        let df = s.drop_first();
        assert forall|i: int, j: int| 0 <= i < j < df.len() implies df[i] <= df[j] by {
            assert(df[i] == s[i + 1] && df[j] == s[j + 1]);
        }
        lemma_insert_sorted_sorted(df, v);
        lemma_insert_sorted_len(df, v);
        let rr = insert_sorted(df, v);
        assert forall|i: int, j: int| 0 <= i < j < r.len() implies r[i] <= r[j] by {
            if i >= 1 {
                assert(r[i] == rr[i - 1] && r[j] == rr[j - 1]);
            } else {
                assert(r[0] == s[0] && r[j] == rr[j - 1]);
                assert forall|t: int| 0 <= t < df.len() implies s[0] <= df[t] by {
                    assert(df[t] == s[t + 1]);
                }
                lemma_insert_sorted_min(df, v, s[0], j - 1);
            }
        }
    }
}

pub proof fn lemma_sort_upto_sorted(s: Seq<int>, n: int)
    ensures
        sorted_asc(sort_upto(s, n)),
    decreases n,
{
    if n > 0 {
        lemma_sort_upto_sorted(s, n - 1);
        lemma_insert_sorted_sorted(sort_upto(s, n - 1), s[n - 1]);
    }
}

/// The crossing list the pairing step walks is sorted ascending, so the
/// even-odd pairs really are the leftmost crossing with the next one, and
/// so on rightward.
pub proof fn lemma_scan_crossings_sorted(pts: Seq<(int, int)>, y: int)
    ensures
        sorted_asc(scan_crossings(pts, y)),
{
    let cr = crossings_upto(pts, y, pts.len() as int);
    lemma_sort_upto_sorted(cr, cr.len() as int);
}


impl Framebuffer {
    /// Fill the interior of the closed vertex loop with `fill_color` by the
    /// even-odd scanline rule; fewer than 3 vertices is a silent no-op.
    /// Filling makes the fill color the current color.
    #[verifier::loop_isolation(false)]
    #[verifier::rlimit(60)]
    pub fn fill_polygon(&mut self, vertices: &Vec<Vertex>, fill_color: Color)
        requires
            old(self).wf(),
        ensures
            final(self).wf(),
            final(self).width == old(self).width,
            final(self).height == old(self).height,
            final(self).background_color == old(self).background_color,
            vertices@.len() < 3 ==> *final(self) == *old(self),
            vertices@.len() >= 3 ==> final(self).current_color == fill_color,
            vertices@.len() >= 3 ==> final(self).buffer@ == fill_paint(
                old(self).buffer@,
                old(self).width as int,
                vertex_pts(vertices@),
                fill_color,
            ),
    {
        let n: usize = vertices.len();
        if n < 3 {
            return ;
        }
        let ghost pts = vertex_pts(vertices@);
        let ghost obuf = self.buffer@;
        let ghost ow = self.width as int;
        let ghost oh = self.height as int;
        let mut min_y: i32 = vertices[0].y;
        let mut max_y: i32 = vertices[0].y;
        let mut j: usize = 1;
        while j < n
            invariant
                1 <= j <= n,
                min_y as int == min_y_upto(pts, j as int),
                max_y as int == max_y_upto(pts, j as int),
            decreases n - j,
        {
            let vy: i32 = vertices[j].y;
            if vy < min_y {
                min_y = vy;
            }
            if vy > max_y {
                max_y = vy;
            }
            j = j + 1;
        }
        self.set_current_color(fill_color);
        proof {
            assert forall|i: int| 0 <= i < obuf.len() implies !(i / ow < min_y as int
                && #[trigger] scan_covered(pts, i / ow, i % ow)) by {
                if i / ow < min_y as int && scan_covered(pts, i / ow, i % ow) {
                    lemma_not_covered_outside(pts, i / ow, i % ow);
                }
            }
        }
        let mut yy: i64 = min_y as i64;
        while yy <= max_y as i64
            invariant
                min_y as int <= yy as int <= max_y as int + 1,
                self.wf(),
                self.width == old(self).width,
                self.height == old(self).height,
                self.background_color == old(self).background_color,
                self.current_color == fill_color,
                self.buffer@.len() == obuf.len(),
                forall|i: int|
                    0 <= i < obuf.len() ==> self.buffer@[i] == (if i / ow < yy as int
                        && scan_covered(pts, i / ow, i % ow) {
                        fill_color
                    } else {
                        obuf[i]
                    }),
            decreases max_y as int + 1 - yy as int,
        {
            let mut xs: Vec<i32> = Vec::new();
            let mut e: usize = 0;
            while e < n
                invariant
                    e <= n,
                    int_seq(xs@) == crossings_upto(pts, yy as int, e as int),
                decreases n - e,
            {
                let v1 = vertices[e];
                let en: usize = (e + 1) % n;
                let v2 = vertices[en];
                proof {
                    assert(pts[e as int] == vertices@[e as int].xy());
                    assert(pts[(e as int + 1) % pts.len() as int] == vertices@[en as int].xy());
                }
                let ghost xs0 = int_seq(xs@);
                if let Some(xi) = edge_crossing_at(v1, v2, yy) {
                    xs.push(xi);
                    proof {
                        assert(int_seq(xs@) =~= xs0.push(xi as int));
                    }
                }
                proof {
                    assert(int_seq(xs@) == crossings_upto(pts, yy as int, e as int + 1));
                }
                e = e + 1;
            }
            let ss = sort_vec(&xs);
            let ghost srow = scan_crossings(pts, yy as int);
            proof {
                assert(int_seq(ss@) == srow);
            }
            let sn: usize = ss.len();
            let mut ii: usize = 0;
            let ghost mut m: int = 0;
            while ii + 1 < sn
                invariant
                    ii == 2 * m,
                    0 <= m,
                    ii <= sn,
                    sn == ss@.len(),
                    self.wf(),
                    self.width == old(self).width,
                    self.height == old(self).height,
                    self.background_color == old(self).background_color,
                    self.current_color == fill_color,
                    self.buffer@.len() == obuf.len(),
                    forall|i: int|
                        0 <= i < obuf.len() ==> self.buffer@[i] == (if (i / ow < yy as int
                            && scan_covered(pts, i / ow, i % ow)) || (i / ow == yy as int
                            && covered_pairs(srow, m, i % ow)) {
                            fill_color
                        } else {
                            obuf[i]
                        }),
                decreases sn - ii,
            {
                let lo: i32 = ss[ii];
                let hi: i32 = ss[ii + 1];
                proof {
                    assert(srow[2 * m] == lo as int);
                    assert(srow[2 * m + 1] == hi as int);
                }
                let mut x: i64 = lo as i64;
                while x <= hi as i64
                    invariant
                        lo as int <= x as int,
                        x as int <= hi as int + 1 || x as int == lo as int,
                        self.wf(),
                        self.width == old(self).width,
                        self.height == old(self).height,
                        self.background_color == old(self).background_color,
                        self.current_color == fill_color,
                        self.buffer@.len() == obuf.len(),
                        forall|i: int|
                            0 <= i < obuf.len() ==> self.buffer@[i] == (if (i / ow < yy as int
                                && scan_covered(pts, i / ow, i % ow)) || (i / ow == yy as int
                                && covered_pairs(srow, m, i % ow)) || (i / ow == yy as int
                                && lo as int <= i % ow < x as int) {
                                fill_color
                            } else {
                                obuf[i]
                            }),
                    decreases hi as int + 1 - x as int,
                {
                    let ghost pre = self.buffer@;
                    let ghost xcur = x as int;
                    self.point(x as i32, yy as i32);
                    proof {
                        if 0 <= xcur < ow && 0 <= (yy as int) < oh {
                            lemma_grid_index(ow, oh, xcur, yy as int);
                            let idx = yy as int * ow + xcur;
                            assert(self.buffer@ == pre.update(idx, fill_color));
                            assert forall|i: int| 0 <= i < obuf.len() implies self.buffer@[i]
                                == (if (i / ow < yy as int && scan_covered(pts, i / ow, i % ow))
                                || (i / ow == yy as int && covered_pairs(srow, m, i % ow)) || (i
                                / ow == yy as int && lo as int <= i % ow < xcur + 1) {
                                fill_color
                            } else {
                                obuf[i]
                            }) by {
                                lemma_grid_coords(ow, oh, i);
                                if i == idx {
                                    assert(i % ow == xcur && i / ow == yy as int);
                                } else {
                                    if i / ow == yy as int && i % ow == xcur {
                                        assert(i == ow * (yy as int) + xcur);
                                        assert(i == idx) by (nonlinear_arith)
                                            requires
                                                i == ow * (yy as int) + xcur,
                                                idx == yy as int * ow + xcur,
                                        ;
                                        assert(false);
                                    }
                                    assert(self.buffer@[i] == pre[i]);
                                }
                            }
                        } else {
                            assert(self.buffer@ == pre);
                            assert forall|i: int| 0 <= i < obuf.len() implies self.buffer@[i]
                                == (if (i / ow < yy as int && scan_covered(pts, i / ow, i % ow))
                                || (i / ow == yy as int && covered_pairs(srow, m, i % ow)) || (i
                                / ow == yy as int && lo as int <= i % ow < xcur + 1) {
                                fill_color
                            } else {
                                obuf[i]
                            }) by {
                                lemma_grid_coords(ow, oh, i);
                            }
                        }
                    }
                    x = x + 1;
                }
                proof {
                    assert forall|c: int| covered_pairs(srow, m + 1, c) <==> (covered_pairs(
                        srow,
                        m,
                        c,
                    ) || (lo as int <= c <= hi as int)) by {
                        if covered_pairs(srow, m + 1, c) {
                            let j = choose|j: int|
                                0 <= j < m + 1 && 2 * j + 1 < srow.len() && #[trigger] srow[2
                                    * j] <= c <= srow[2 * j + 1];
                            if j < m {
                                assert(covered_pairs(srow, m, c));
                            }
                        }
                        if covered_pairs(srow, m, c) {
                            let j = choose|j: int|
                                0 <= j < m && 2 * j + 1 < srow.len() && #[trigger] srow[2 * j]
                                    <= c <= srow[2 * j + 1];
                            assert(0 <= j < m + 1 && 2 * j + 1 < srow.len() && srow[2 * j] <= c
                                <= srow[2 * j + 1]);
                        }
                        if lo as int <= c <= hi as int {
                            assert(0 <= m < m + 1 && 2 * m + 1 < srow.len() && srow[2 * m] <= c
                                <= srow[2 * m + 1]);
                        }
                    }
                }
                ii = ii + 2;
                proof {
                    m = m + 1;
                }
            }
            proof {
                assert forall|c: int| scan_covered(pts, yy as int, c) <==> covered_pairs(
                    srow,
                    m,
                    c,
                ) by {
                    if scan_covered(pts, yy as int, c) {
                        let j = choose|j: int|
                            0 <= j && 2 * j + 1 < srow.len() && #[trigger] srow[2 * j] <= c
                                <= srow[2 * j + 1];
                        assert(2 * j + 1 < sn <= 2 * m + 1);
                        assert(0 <= j < m && 2 * j + 1 < srow.len() && srow[2 * j] <= c <= srow[2 * j + 1]);
                    }
                    if covered_pairs(srow, m, c) {
                        let j = choose|j: int|
                            0 <= j < m && 2 * j + 1 < srow.len() && #[trigger] srow[2 * j] <= c
                                <= srow[2 * j + 1];
                        assert(0 <= j && 2 * j + 1 < srow.len() && srow[2 * j] <= c <= srow[2
                            * j + 1]);
                    }
                }
            }
            yy = yy + 1;
        }
        proof {
            assert forall|i: int| 0 <= i < obuf.len() implies ((i / ow < yy as int
                && #[trigger] scan_covered(pts, i / ow, i % ow)) <==> scan_covered(
                pts,
                i / ow,
                i % ow,
            )) by {
                if scan_covered(pts, i / ow, i % ow) && !(i / ow < yy as int) {
                    lemma_not_covered_outside(pts, i / ow, i % ow);
                }
            }
            assert(self.buffer@ =~= fill_paint(obuf, ow, pts, fill_color));
        }
    }
}


/// The grid after stroking the first `k` edges of the closed vertex loop
/// with `c`; edge `i` runs from `pts[i]` to `pts[(i + 1) % len]`.
pub open spec fn border_paint_upto(
    grid: Seq<Color>,
    w: int,
    pts: Seq<(int, int)>,
    c: Color,
    k: int,
) -> Seq<Color>
    decreases k,
{
    if k <= 0 {
        grid
    } else {
        let g = border_paint_upto(grid, w, pts, c, k - 1);
        let p = pts[k - 1];
        let q = pts[k % pts.len() as int];
        paint_points(g, w, line_points(p.0, p.1, q.0, q.1), c)
    }
}

/// The grid after stroking every edge of the closed vertex loop with `c`.
pub open spec fn border_paint(grid: Seq<Color>, w: int, pts: Seq<(int, int)>, c: Color) -> Seq<
    Color,
> {
    border_paint_upto(grid, w, pts, c, pts.len() as int)
}

/// The grid after filling the loop with `c` when it has at least three
/// vertices, and unchanged otherwise.
pub open spec fn fill_paint_if(grid: Seq<Color>, w: int, pts: Seq<(int, int)>, c: Color) -> Seq<
    Color,
> {
    if pts.len() >= 3 {
        fill_paint(grid, w, pts, c)
    } else {
        grid
    }
}

impl Framebuffer {
    /// Draw the straight segment between two vertices (their third
    /// coordinates are ignored) and make `color` the current color.
    pub fn line(&mut self, start: Vertex, end: Vertex, color: Color)
        requires
            old(self).wf(),
        ensures
            final(self).wf(),
            final(self).width == old(self).width,
            final(self).height == old(self).height,
            final(self).background_color == old(self).background_color,
            final(self).current_color == color,
            final(self).buffer@ == paint_points(
                old(self).buffer@,
                old(self).width as int,
                line_points(start.x as int, start.y as int, end.x as int, end.y as int),
                color,
            ),
    {
        self.set_current_color(color);
        self.draw_line(start.x, start.y, end.x, end.y, color);
    }

    /// Stroke every edge of the closed vertex loop with `color`.
    #[verifier::loop_isolation(false)]
    fn stroke_edges(&mut self, vertices: &Vec<Vertex>, color: Color)
        requires
            old(self).wf(),
        ensures
            final(self).wf(),
            final(self).width == old(self).width,
            final(self).height == old(self).height,
            final(self).background_color == old(self).background_color,
            final(self).buffer@ == border_paint(
                old(self).buffer@,
                old(self).width as int,
                vertex_pts(vertices@),
                color,
            ),
            vertices@.len() >= 1 ==> final(self).current_color == color,
            vertices@.len() == 0 ==> final(self).current_color == old(self).current_color,
    {
        let n: usize = vertices.len();
        let ghost pts = vertex_pts(vertices@);
        let ghost obuf = self.buffer@;
        let ghost ow = self.width as int;
        let mut j: usize = 0;
        while j < n
            invariant
                j <= n,
                self.wf(),
                self.width == old(self).width,
                self.height == old(self).height,
                self.background_color == old(self).background_color,
                self.buffer@ == border_paint_upto(obuf, ow, pts, color, j as int),
                j >= 1 ==> self.current_color == color,
                j == 0 ==> self.current_color == old(self).current_color,
            decreases n - j,
        {
            let jn: usize = (j + 1) % n;
            proof {
                assert(pts[j as int] == vertices@[j as int].xy());
                assert(pts[(j as int + 1) % pts.len() as int] == vertices@[jn as int].xy());
            }
            self.line(vertices[j], vertices[jn], color);
            j = j + 1;
        }
    }

    /// Stroke the loop's edges with the border color, then fill its
    /// interior with the fill color (the fill may overdraw border pixels on
    /// the boundary); fewer than 2 vertices is a silent no-op.
    pub fn draw_polygon(&mut self, vertices: &Vec<Vertex>, border_color: Color, fill_color: Color)
        requires
            old(self).wf(),
        ensures
            final(self).wf(),
            final(self).width == old(self).width,
            final(self).height == old(self).height,
            final(self).background_color == old(self).background_color,
            vertices@.len() < 2 ==> *final(self) == *old(self),
            vertices@.len() >= 2 ==> final(self).buffer@ == fill_paint_if(
                border_paint(
                    old(self).buffer@,
                    old(self).width as int,
                    vertex_pts(vertices@),
                    border_color,
                ),
                old(self).width as int,
                vertex_pts(vertices@),
                fill_color,
            ),
            vertices@.len() >= 3 ==> final(self).current_color == fill_color,
            vertices@.len() == 2 ==> final(self).current_color == border_color,
    {
        let n: usize = vertices.len();
        if n < 2 {
            return ;
        }
        self.stroke_edges(vertices, border_color);
        self.fill_polygon(vertices, fill_color);
    }

    /// Draw and fill the outer loop, then draw the hole loop and fill it
    /// with the background color. This is a compositing trick, not a
    /// boolean subtraction: the hole looks right only where the backdrop
    /// behind the shape is the background color. Fewer than 2 outer
    /// vertices is a silent no-op.
    pub fn draw_polygon_with_hole(
        &mut self,
        outer_vertices: &Vec<Vertex>,
        hole_vertices: &Vec<Vertex>,
        border_color: Color,
        fill_color: Color,
        background_color: Color,
    )
        requires
            old(self).wf(),
        ensures
            final(self).wf(),
            final(self).width == old(self).width,
            final(self).height == old(self).height,
            final(self).background_color == old(self).background_color,
            outer_vertices@.len() < 2 ==> *final(self) == *old(self),
            outer_vertices@.len() >= 2 ==> final(self).buffer@ == fill_paint_if(
                border_paint(
                    fill_paint_if(
                        border_paint(
                            old(self).buffer@,
                            old(self).width as int,
                            vertex_pts(outer_vertices@),
                            border_color,
                        ),
                        old(self).width as int,
                        vertex_pts(outer_vertices@),
                        fill_color,
                    ),
                    old(self).width as int,
                    vertex_pts(hole_vertices@),
                    border_color,
                ),
                old(self).width as int,
                vertex_pts(hole_vertices@),
                background_color,
            ),
            outer_vertices@.len() >= 2 ==> final(self).current_color == (
            if hole_vertices@.len() >= 3 {
                background_color
            } else if hole_vertices@.len() >= 1 {
                border_color
            } else if outer_vertices@.len() >= 3 {
                fill_color
            } else {
                border_color
            }),
    {
        let n: usize = outer_vertices.len();
        if n < 2 {
            return ;
        }
        self.stroke_edges(outer_vertices, border_color);
        self.fill_polygon(outer_vertices, fill_color);
        self.stroke_edges(hole_vertices, border_color);
        self.fill_polygon(hole_vertices, background_color);
    }
}

} // verus!
