//! Integer line rasterization on the canvas.
//!
//! `draw_line` walks a straight segment between two integer points
//! with Bresenham's incremental integer-error scheme: the axis with
//! the larger extent drives the walk, one plotted pixel per unit
//! step, and the other coordinate advances whenever the accumulated
//! error crosses the driving extent.  All arithmetic is integral, so
//! the plotted path is exact and deterministic.

use vstd::prelude::*;
use crate::canvas::Pict;
use crate::canvas::plotted;

verus! {

/// The sign of `v`: -1, 0 or 1.
pub open spec fn sgn(v: int) -> int {
    if v > 0 {
        1
    } else if v < 0 {
        -1
    } else {
        0
    }
}

/// The absolute magnitude of `v`.
pub open spec fn mag(v: int) -> int {
    if v < 0 {
        -v
    } else {
        v
    }
}

/// The points visited by an x-driven walk of `n` steps from `(x, y)`:
/// each step plots, moves one pixel along x by `sx`, and adds the
/// vertical extent `rise` to the error accumulator `err`; whenever the
/// accumulator exceeds the horizontal extent `run`, y advances by `sy`
/// and the accumulator drops back by `run`.
pub open spec fn x_major_points(
    x: int,
    y: int,
    sx: int,
    sy: int,
    run: int,
    rise: int,
    err: int,
    n: nat,
) -> Seq<(int, int)>
    decreases n,
{
    if n == 0 {
        Seq::empty()
    } else {
        let e = err + rise;
        let rest = if run < e {
            x_major_points(x + sx, y + sy, sx, sy, run, rise, e - run, (n - 1) as nat)
        } else {
            x_major_points(x + sx, y, sx, sy, run, rise, e, (n - 1) as nat)
        };
        seq![(x, y)] + rest
    }
}

/// The points visited by a y-driven walk of `n` steps from `(x, y)`;
/// the mirror image of `x_major_points`, with y driving and x
/// advancing on error overflow.
pub open spec fn y_major_points(
    x: int,
    y: int,
    sx: int,
    sy: int,
    run: int,
    rise: int,
    err: int,
    n: nat,
) -> Seq<(int, int)>
    decreases n,
{
    if n == 0 {
        Seq::empty()
    } else {
        let e = err + run;
        let rest = if rise < e {
            y_major_points(x + sx, y + sy, sx, sy, run, rise, e - rise, (n - 1) as nat)
        } else {
            y_major_points(x, y + sy, sx, sy, run, rise, e, (n - 1) as nat)
        };
        seq![(x, y)] + rest
    }
}

/// The exact sequence of points a line walk from `p0` towards `p1`
/// visits.  The driving axis is whichever delta has the larger
/// magnitude; the walk takes one step per unit of the driving extent,
/// starting at `p0`, so `p1` itself is not part of the path.  The
/// error accumulator starts at half the secondary extent to center
/// the rounding of the secondary coordinate.
pub open spec fn line_points(p0: (int, int), p1: (int, int)) -> Seq<(int, int)> {
    let sx = sgn(p1.0 - p0.0);
    let run = mag(p1.0 - p0.0);
    let sy = sgn(p1.1 - p0.1);
    let rise = mag(p1.1 - p0.1);
    if rise < run {
        x_major_points(p0.0, p0.1, sx, sy, run, rise, rise / 2, run as nat)
    } else {
        y_major_points(p0.0, p0.1, sx, sy, run, rise, run / 2, rise as nat)
    }
}

/// The pixel store after plotting every point of `pts` in order with
/// color `c` on a `w` by `h` canvas; out-of-bounds points plot
/// nothing, exactly as `plot` behaves.
pub open spec fn painted(pix: Seq<u32>, w: int, h: int, pts: Seq<(int, int)>, c: u32) -> Seq<u32>
    decreases pts.len(),
{
    if pts.len() == 0 {
        pix
    } else {
        plotted(painted(pix, w, h, pts.drop_last(), c), w, h, pts.last().0, pts.last().1, c)
    }
}

/// An x-driven walk of `n` steps visits exactly `n` points.
pub proof fn lemma_x_major_points_len(
    x: int,
    y: int,
    sx: int,
    sy: int,
    run: int,
    rise: int,
    err: int,
    n: nat,
)
    ensures
        x_major_points(x, y, sx, sy, run, rise, err, n).len() == n,
    decreases n,
{
    if n > 0 {
        let e = err + rise;
        if run < e {
            lemma_x_major_points_len(x + sx, y + sy, sx, sy, run, rise, e - run, (n - 1) as nat);
        } else {
            lemma_x_major_points_len(x + sx, y, sx, sy, run, rise, e, (n - 1) as nat);
        }
    }
}

/// A y-driven walk of `n` steps visits exactly `n` points.
pub proof fn lemma_y_major_points_len(
    x: int,
    y: int,
    sx: int,
    sy: int,
    run: int,
    rise: int,
    err: int,
    n: nat,
)
    ensures
        y_major_points(x, y, sx, sy, run, rise, err, n).len() == n,
    decreases n,
{
    if n > 0 {
        let e = err + run;
        if rise < e {
            lemma_y_major_points_len(x + sx, y + sy, sx, sy, run, rise, e - rise, (n - 1) as nat);
        } else {
            lemma_y_major_points_len(x, y + sy, sx, sy, run, rise, e, (n - 1) as nat);
        }
    }
}

/// A line walk visits one point per unit of the driving extent: as
/// many points as the larger of the two deltas.  In particular the
/// count is the same in both directions, `line_points(a, b)` and
/// `line_points(b, a)` always have equal length.
pub proof fn lemma_line_points_len(p0: (int, int), p1: (int, int))
    ensures
        line_points(p0, p1).len() == if mag(p1.1 - p0.1) < mag(p1.0 - p0.0) {
            mag(p1.0 - p0.0)
        } else {
            mag(p1.1 - p0.1)
        },
        line_points(p0, p1).len() == line_points(p1, p0).len(),
{
    let sx = sgn(p1.0 - p0.0);
    let run = mag(p1.0 - p0.0);
    let sy = sgn(p1.1 - p0.1);
    let rise = mag(p1.1 - p0.1);
    if rise < run {
        lemma_x_major_points_len(p0.0, p0.1, sx, sy, run, rise, rise / 2, run as nat);
    } else {
        lemma_y_major_points_len(p0.0, p0.1, sx, sy, run, rise, run / 2, rise as nat);
    }
    let tx = sgn(p0.0 - p1.0);
    let trun = mag(p0.0 - p1.0);
    let ty = sgn(p0.1 - p1.1);
    let trise = mag(p0.1 - p1.1);
    if trise < trun {
        lemma_x_major_points_len(p1.0, p1.1, tx, ty, trun, trise, trise / 2, trun as nat);
    } else {
        lemma_y_major_points_len(p1.0, p1.1, tx, ty, trun, trise, trun / 2, trise as nat);
    }
}

/// Painting preserves the size of a well-formed pixel store.
pub proof fn lemma_painted_len(pix: Seq<u32>, w: int, h: int, pts: Seq<(int, int)>, c: u32)
    requires
        pix.len() == w * h,
    ensures
        painted(pix, w, h, pts, c).len() == pix.len(),
    decreases pts.len(),
{
    if pts.len() > 0 {
        lemma_painted_len(pix, w, h, pts.drop_last(), c);
        let p = pts.last();
        if 0 <= p.0 < w && 0 <= p.1 < h {
            crate::canvas::lemma_row_major_index_in_range(w, h, p.0, p.1);
        }
    }
}

/// Whether point `p`, plotted on a `w` by `h` canvas, lands on the
/// row-major cell `j`.
pub open spec fn covers(w: int, h: int, p: (int, int), j: int) -> bool {
    0 <= p.0 < w && 0 <= p.1 < h && p.1 * w + p.0 == j
}

/// A cell that no point of the walk lands on keeps its old value.
pub proof fn lemma_painted_untouched(
    pix: Seq<u32>,
    w: int,
    h: int,
    pts: Seq<(int, int)>,
    c: u32,
    j: int,
)
    requires
        pix.len() == w * h,
        0 <= j < pix.len(),
        forall|m: int| 0 <= m < pts.len() ==> !covers(w, h, pts[m], j),
    ensures
        painted(pix, w, h, pts, c)[j] == pix[j],
    decreases pts.len(),
{
    if pts.len() > 0 {
        assert(forall|m: int|
            0 <= m < pts.drop_last().len() ==> pts.drop_last()[m] == pts[m]);
        lemma_painted_untouched(pix, w, h, pts.drop_last(), c, j);
        lemma_painted_len(pix, w, h, pts.drop_last(), c);
        let p = pts.last();
        assert(!covers(w, h, pts[pts.len() - 1], j));
        if 0 <= p.0 < w && 0 <= p.1 < h {
            crate::canvas::lemma_row_major_index_in_range(w, h, p.0, p.1);
            assert(p.1 * w + p.0 != j);
        }
    }
}

/// A cell that some point of the walk lands on, and that no later
/// point lands on, holds the painting color afterwards.
pub proof fn lemma_painted_covered(
    pix: Seq<u32>,
    w: int,
    h: int,
    pts: Seq<(int, int)>,
    c: u32,
    m: int,
    j: int,
)
    requires
        pix.len() == w * h,
        0 <= j < pix.len(),
        0 <= m < pts.len(),
        covers(w, h, pts[m], j),
        forall|m2: int| m < m2 < pts.len() ==> !covers(w, h, pts[m2], j),
    ensures
        painted(pix, w, h, pts, c)[j] == c,
    decreases pts.len(),
{
    lemma_painted_len(pix, w, h, pts.drop_last(), c);
    let p = pts.last();
    if m == pts.len() - 1 {
        assert(covers(w, h, p, j));
        crate::canvas::lemma_row_major_index_in_range(w, h, p.0, p.1);
    } else {
        assert(forall|m2: int|
            0 <= m2 < pts.drop_last().len() ==> pts.drop_last()[m2] == pts[m2]);
        lemma_painted_covered(pix, w, h, pts.drop_last(), c, m, j);
        assert(!covers(w, h, pts[pts.len() - 1], j));
        if 0 <= p.0 < w && 0 <= p.1 < h {
            crate::canvas::lemma_row_major_index_in_range(w, h, p.0, p.1);
            assert(p.1 * w + p.0 != j);
        }
    }
}

/// Painting one more point of the walk updates the store exactly as a
/// single plot of that point does.
proof fn lemma_painted_snoc(
    pix: Seq<u32>,
    w: int,
    h: int,
    pts: Seq<(int, int)>,
    c: u32,
    i: int,
)
    requires
        0 <= i < pts.len(),
    ensures
        painted(pix, w, h, pts.take(i + 1), c) == plotted(
            painted(pix, w, h, pts.take(i), c),
            w,
            h,
            pts[i].0,
            pts[i].1,
            c,
        ),
{
    assert(pts.take(i + 1).len() == i + 1);
    assert(pts.take(i + 1).drop_last() =~= pts.take(i));
    assert(pts.take(i + 1).last() == pts[i]);
}

/// Splitting the head off the remainder of the walk: if what is left
/// from position `i` on starts with `head` and continues as `rest`,
/// then `head` is the point at `i` and `rest` is what is left from
/// `i + 1` on.
proof fn lemma_skip_head(pts: Seq<(int, int)>, i: int, head: (int, int), rest: Seq<(int, int)>)
    requires
        0 <= i <= pts.len(),
        pts.skip(i) == seq![head] + rest,
    ensures
        i < pts.len(),
        pts[i] == head,
        pts.skip(i + 1) == rest,
{
    assert(pts.skip(i).len() == pts.len() - i);
    assert((seq![head] + rest).len() == 1 + rest.len());
    assert(pts[i] == pts.skip(i)[0]);
    assert forall|j: int| 0 <= j < rest.len() implies pts.skip(i + 1)[j] == rest[j] by {
        assert(pts.skip(i)[j + 1] == (seq![head] + rest)[j + 1]);
        assert((seq![head] + rest)[j + 1] == rest[j]);
        assert(pts.skip(i)[j + 1] == pts[i + j + 1]);
        assert(pts.skip(i + 1)[j] == pts[i + 1 + j]);
    };
    assert(pts.skip(i + 1).len() == rest.len());
    assert(pts.skip(i + 1) =~= rest);
}

/// Ring identity for the error accumulator: one more driving step
/// adds the minor extent, and a minor advance subtracts the major
/// extent, keeping `err == e0 + i * minor - k * major`.
proof fn lemma_err_step(e0: int, i: int, k: int, major: int, minor: int, err: int) by (nonlinear_arith)
    requires
        err == e0 + i * minor - k * major,
    ensures
        err + minor == e0 + (i + 1) * minor - k * major,
        err + minor - major == e0 + (i + 1) * minor - (k + 1) * major,
{
}

/// The minor coordinate advances at most `minor` times over the whole
/// walk: when the accumulator crosses the major extent on step `i`,
/// the advance count `k` is still below the minor extent.
proof fn lemma_minor_advance_bound(
    e0: int,
    i: int,
    k: int,
    major: int,
    minor: int,
    err: int,
) by (nonlinear_arith)
    requires
        0 <= minor <= major,
        0 <= e0 < major,
        0 <= i < major,
        0 <= k,
        err == e0 + i * minor - k * major,
        major < err + minor,
    ensures
        k + 1 <= minor,
{
    assert((k + 1) * major == k * major + major);
    assert((k + 1) * major < e0 + (i + 1) * minor);
    assert((i + 1) * minor <= major * minor);
    assert((k + 1) * major < major * (1 + minor));
}

/// A degenerate segment, with both endpoints equal, visits no point
/// at all: drawing it terminates and leaves every pixel unchanged, in
/// whichever order its (equal) endpoints are given.
pub proof fn lemma_degenerate_line(pix: Seq<u32>, w: int, h: int, p: (int, int), c: u32)
    ensures
        line_points(p, p) == Seq::<(int, int)>::empty(),
        painted(pix, w, h, line_points(p, p), c) == pix,
{
}

/// An x-driven walk with a flat slope never leaves its row: with a
/// zero vertical extent the error accumulator never crosses the
/// horizontal extent, so step `i` visits `(x + i, y)`.
proof fn lemma_x_major_points_flat(x: int, y: int, sy: int, run: int, err: int, n: nat)
    requires
        0 <= err <= run,
    ensures
        x_major_points(x, y, 1, sy, run, 0, err, n) == Seq::new(n, |i: int| (x + i, y)),
    decreases n,
{
    if n > 0 {
        lemma_x_major_points_flat(x + 1, y, sy, run, err, (n - 1) as nat);
    }
    assert(x_major_points(x, y, 1, sy, run, 0, err, n) =~= Seq::new(n, |i: int| (x + i, y)));
}

/// A left-to-right horizontal segment paints exactly the cells of its
/// row from the start column (inclusive) to the end column
/// (exclusive), and leaves every other cell unchanged: the in-bounds
/// cell `(xx, yy)` holds the line color afterwards when it lies on
/// the run, and its old value when it does not.
pub proof fn lemma_horizontal_run(
    pix: Seq<u32>,
    w: int,
    h: int,
    x0: int,
    x1: int,
    y: int,
    c: u32,
    xx: int,
    yy: int,
)
    requires
        pix.len() == w * h,
        x0 < x1,
        0 <= xx < w,
        0 <= yy < h,
    ensures
        painted(pix, w, h, line_points((x0, y), (x1, y)), c).len() == pix.len(),
        yy == y && x0 <= xx < x1 ==> painted(
            pix,
            w,
            h,
            line_points((x0, y), (x1, y)),
            c,
        )[yy * w + xx] == c,
        !(yy == y && x0 <= xx < x1) ==> painted(
            pix,
            w,
            h,
            line_points((x0, y), (x1, y)),
            c,
        )[yy * w + xx] == pix[yy * w + xx],
{
    let pts = line_points((x0, y), (x1, y));
    let run = x1 - x0;
    lemma_x_major_points_flat(x0, y, 0, run, 0, run as nat);
    assert(pts == Seq::new(run as nat, |i: int| (x0 + i, y)));
    lemma_painted_len(pix, w, h, pts, c);
    crate::canvas::lemma_row_major_index_in_range(w, h, xx, yy);
    let j = yy * w + xx;
    if yy == y && x0 <= xx < x1 {
        let m = xx - x0;
        assert(pts[m] == (x0 + m, y));
        assert forall|m2: int| m < m2 < pts.len() implies !covers(w, h, pts[m2], j) by {
            assert(pts[m2] == (x0 + m2, y));
            if 0 <= x0 + m2 < w && 0 <= y < h && y * w + (x0 + m2) == j {
                crate::canvas::lemma_row_major_index_injective(w, h, x0 + m2, y, xx, yy);
            }
        };
        lemma_painted_covered(pix, w, h, pts, c, m, j);
    } else {
        assert forall|m: int| 0 <= m < pts.len() implies !covers(w, h, pts[m], j) by {
            assert(pts[m] == (x0 + m, y));
            if 0 <= x0 + m < w && 0 <= y < h && y * w + (x0 + m) == j {
                crate::canvas::lemma_row_major_index_injective(w, h, x0 + m, y, xx, yy);
            }
        };
        lemma_painted_untouched(pix, w, h, pts, c, j);
    }
}

impl Pict {
    /// Rasterizes the segment from `p0` towards `p1` in color `c`,
    /// plotting one pixel per unit of the driving axis starting at
    /// `p0`; the endpoint `p1` itself is not plotted.  Points that
    /// fall outside the canvas are ignored by `plot`, so the segment
    /// may run up to or past the edges freely.
    pub fn draw_line(&mut self, p0: (isize, isize), p1: (isize, isize), c: u32)
        requires
            old(self).wf(),
            mag(p1.0 - p0.0) + mag(p1.1 - p0.1) <= isize::MAX,
        ensures
            final(self).wf(),
            final(self).width == old(self).width,
            final(self).height == old(self).height,
            final(self).pixel@ == painted(
                old(self).pixel@,
                old(self).width as int,
                old(self).height as int,
                line_points((p0.0 as int, p0.1 as int), (p1.0 as int, p1.1 as int)),
                c,
            ),
    {
        let ghost w = self.width as int;
        let ghost h = self.height as int;
        let ghost pix0 = self.pixel@;
        let ghost pts = line_points((p0.0 as int, p0.1 as int), (p1.0 as int, p1.1 as int));

        let dx: isize = p1.0 - p0.0;
        let sx: isize = if dx > 0 { 1 } else if dx < 0 { -1 } else { 0 };
        let adx: isize = if dx < 0 { -dx } else { dx };
        let dy: isize = p1.1 - p0.1;
        let sy: isize = if dy > 0 { 1 } else if dy < 0 { -1 } else { 0 };
        let ady: isize = if dy < 0 { -dy } else { dy };

        if ady < adx {
            let mut err: isize = ((ady as usize) / 2) as isize;
            let ghost e0 = err as int;
            let mut x: isize = p0.0;
            let mut y: isize = p0.1;
            let mut i: isize = 0;
            let ghost mut k: int = 0;
            proof {
                lemma_x_major_points_len(
                    p0.0 as int, p0.1 as int, sx as int, sy as int,
                    adx as int, ady as int, e0, adx as nat,
                );
                assert(pts == x_major_points(
                    p0.0 as int, p0.1 as int, sx as int, sy as int,
                    adx as int, ady as int, e0, adx as nat,
                ));
                assert(pts.skip(0) =~= pts);
                assert(pts.take(0) =~= Seq::<(int, int)>::empty());
            }
            while i < adx
                invariant
                    self.wf(),
                    self.width as int == w,
                    self.height as int == h,
                    0 <= i <= adx,
                    0 <= ady < adx,
                    adx + ady <= isize::MAX,
                    sx == 1 || sx == -1,
                    sy == 1 || sy == -1 || sy == 0,
                    sy == 0 ==> ady == 0,
                    sx == 1 ==> p1.0 == p0.0 + adx,
                    sx == -1 ==> p0.0 == p1.0 + adx,
                    sy == 1 ==> p1.1 == p0.1 + ady,
                    sy == -1 ==> p0.1 == p1.1 + ady,
                    sy == 0 ==> p1.1 == p0.1,
                    sx == 1 ==> x == p0.0 + i,
                    sx == -1 ==> x == p0.0 - i,
                    sy == 1 ==> y == p0.1 + k,
                    sy == -1 ==> y == p0.1 - k,
                    sy == 0 ==> y == p0.1,
                    0 <= k <= ady,
                    0 <= e0 <= ady,
                    err as int == e0 + i * ady - k * adx,
                    0 <= err <= adx,
                    pts.len() == adx,
                    x_major_points(
                        x as int, y as int, sx as int, sy as int,
                        adx as int, ady as int, err as int, (adx - i) as nat,
                    ) == pts.skip(i as int),
                    self.pixel@ == painted(pix0, w, h, pts.take(i as int), c),
                decreases adx - i,
            {
                let ghost x0 = x as int;
                let ghost y0 = y as int;
                let ghost err0 = err as int;
                let ghost i0 = i as int;
                let ghost k0 = k;

                self.plot(x, y, c);
                x = x + sx;
                err = err + ady;
                if adx < err {
                    proof {
                        lemma_minor_advance_bound(e0, i0, k0, adx as int, ady as int, err0);
                        k = k + 1;
                    }
                    y = y + sy;
                    err = err - adx;
                }
                i = i + 1;
                proof {
                    lemma_err_step(e0, i0, k0, adx as int, ady as int, err0);
                    let advance = (adx as int) < err0 + ady as int;
                    let ghost nx = x0 + sx as int;
                    let ghost ny = if advance { y0 + sy as int } else { y0 };
                    let ghost ne = if advance { err0 + ady - adx } else { err0 + ady as int };
                    lemma_x_major_points_len(
                        nx, ny, sx as int, sy as int,
                        adx as int, ady as int, ne, (adx - i0 - 1) as nat,
                    );
                    assert(x_major_points(
                        x0, y0, sx as int, sy as int,
                        adx as int, ady as int, err0, (adx - i0) as nat,
                    ) == seq![(x0, y0)] + x_major_points(
                        nx, ny, sx as int, sy as int,
                        adx as int, ady as int, ne, (adx - i0 - 1) as nat,
                    ));
                    lemma_skip_head(
                        pts,
                        i0,
                        (x0, y0),
                        x_major_points(
                            nx, ny, sx as int, sy as int,
                            adx as int, ady as int, ne, (adx - i0 - 1) as nat,
                        ),
                    );
                    lemma_painted_snoc(pix0, w, h, pts, c, i0);
                }
            }
            proof {
                assert(pts.take(adx as int) =~= pts);
            }
        } else {
            let mut err: isize = ((adx as usize) / 2) as isize;
            let ghost e0 = err as int;
            let mut x: isize = p0.0;
            let mut y: isize = p0.1;
            let mut i: isize = 0;
            let ghost mut k: int = 0;
            proof {
                lemma_y_major_points_len(
                    p0.0 as int, p0.1 as int, sx as int, sy as int,
                    adx as int, ady as int, e0, ady as nat,
                );
                assert(pts == y_major_points(
                    p0.0 as int, p0.1 as int, sx as int, sy as int,
                    adx as int, ady as int, e0, ady as nat,
                ));
                assert(pts.skip(0) =~= pts);
                assert(pts.take(0) =~= Seq::<(int, int)>::empty());
            }
            while i < ady
                invariant
                    self.wf(),
                    self.width as int == w,
                    self.height as int == h,
                    0 <= i <= ady,
                    0 <= adx <= ady,
                    adx + ady <= isize::MAX,
                    sy == 1 || sy == -1 || sy == 0,
                    sy == 0 ==> ady == 0,
                    sx == 1 || sx == -1 || sx == 0,
                    sx == 0 ==> adx == 0,
                    sx == 1 ==> p1.0 == p0.0 + adx,
                    sx == -1 ==> p0.0 == p1.0 + adx,
                    sx == 0 ==> p1.0 == p0.0,
                    sy == 1 ==> p1.1 == p0.1 + ady,
                    sy == -1 ==> p0.1 == p1.1 + ady,
                    sy == 0 ==> p1.1 == p0.1,
                    sy == 1 ==> y == p0.1 + i,
                    sy == -1 ==> y == p0.1 - i,
                    sy == 0 ==> y == p0.1,
                    sx == 1 ==> x == p0.0 + k,
                    sx == -1 ==> x == p0.0 - k,
                    sx == 0 ==> x == p0.0,
                    0 <= k <= adx,
                    0 <= e0 <= adx,
                    2 * e0 <= adx,
                    err as int == e0 + i * adx - k * ady,
                    0 <= err <= ady,
                    pts.len() == ady,
                    y_major_points(
                        x as int, y as int, sx as int, sy as int,
                        adx as int, ady as int, err as int, (ady - i) as nat,
                    ) == pts.skip(i as int),
                    self.pixel@ == painted(pix0, w, h, pts.take(i as int), c),
                decreases ady - i,
            {
                let ghost x0 = x as int;
                let ghost y0 = y as int;
                let ghost err0 = err as int;
                let ghost i0 = i as int;
                let ghost k0 = k;

                self.plot(x, y, c);
                y = y + sy;
                err = err + adx;
                if ady < err {
                    proof {
                        assert(e0 < ady);
                        lemma_minor_advance_bound(e0, i0, k0, ady as int, adx as int, err0);
                        k = k + 1;
                    }
                    x = x + sx;
                    err = err - ady;
                }
                i = i + 1;
                proof {
                    lemma_err_step(e0, i0, k0, ady as int, adx as int, err0);
                    let advance = (ady as int) < err0 + adx as int;
                    let ghost nx = if advance { x0 + sx as int } else { x0 };
                    let ghost ny = y0 + sy as int;
                    let ghost ne = if advance { err0 + adx - ady } else { err0 + adx as int };
                    lemma_y_major_points_len(
                        nx, ny, sx as int, sy as int,
                        adx as int, ady as int, ne, (ady - i0 - 1) as nat,
                    );
                    assert(y_major_points(
                        x0, y0, sx as int, sy as int,
                        adx as int, ady as int, err0, (ady - i0) as nat,
                    ) == seq![(x0, y0)] + y_major_points(
                        nx, ny, sx as int, sy as int,
                        adx as int, ady as int, ne, (ady - i0 - 1) as nat,
                    ));
                    lemma_skip_head(
                        pts,
                        i0,
                        (x0, y0),
                        y_major_points(
                            nx, ny, sx as int, sy as int,
                            adx as int, ady as int, ne, (ady - i0 - 1) as nat,
                        ),
                    );
                    lemma_painted_snoc(pix0, w, h, pts, c, i0);
                }
            }
            proof {
                assert(pts.take(ady as int) =~= pts);
            }
        }
    }
}

} // verus!
