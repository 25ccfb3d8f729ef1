//! Rasterization into a flat frame buffer: the bounds-checked pixel
//! writer, the camera transform, the gap-free line rasterizer and the
//! scanline triangle fill.
//!
//! The frame buffer is a `width * height` vector of packed colors in
//! row-major order.  Screen y is flipped: a pixel at screen coordinate
//! `(sx, sy)` lands in row `height - sy`.  Writes outside the buffer, and
//! on the last row or column, are silently dropped.

use crate::geometry::DrawMethod;
use crate::geometry::Point;
use crate::geometry::Triangle;
use crate::linear_function::lemma_interp_bounds;
use crate::linear_function::LinearFunction;
use vstd::prelude::*;

verus! {

/// Whether a write of a pixel at screen coordinate `(sx, sy)` lands at
/// buffer index `i`: the pixel must clear the bounds check (which excludes
/// the last row and column) and `i` must be its row-major index.
pub open spec fn writes_at(width: int, height: int, sx: int, sy: int, i: int) -> bool {
    &&& 0 <= sx < width - 1
    &&& 0 <= height - sy < height - 1
    &&& i == (height - sy) * width + sx
}

/// Translate a world-space point into screen space by subtracting the
/// camera offset componentwise.
pub fn world_to_screen(point: &Point, camera: &Point) -> (r: Point)
    requires
        i32::MIN <= point.x - camera.x <= i32::MAX,
        i32::MIN <= point.y - camera.y <= i32::MAX,
    ensures
        r.x == point.x - camera.x,
        r.y == point.y - camera.y,
{
    Point { x: point.x - camera.x, y: point.y - camera.y }
}

/// Order two values into the half-open range `[min, max)` that the
/// rasterizers scan; the maximum endpoint itself is never visited.
pub fn order_range(value1: i32, value2: i32) -> (r: core::ops::Range<i32>)
    ensures
        r.start == vstd::math::min(value1 as int, value2 as int),
        r.end == vstd::math::max(value1 as int, value2 as int),
{
    if value1 < value2 {
        value1..value2
    } else {
        value2..value1
    }
}

/// Write one pixel, given in screen coordinates, into the frame buffer,
/// unless the bounds check drops it.  Every index other than the pixel's
/// own is left untouched.
pub fn draw_pixel(pixel: &Point, buffer: &mut Vec<u32>, color: u32, width: i32, height: i32)
    requires
        0 < width,
        0 < height,
        old(buffer)@.len() == width * height,
    ensures
        final(buffer)@.len() == old(buffer)@.len(),
        forall|i: int|
            0 <= i < final(buffer)@.len() ==> final(buffer)@[i] == (if writes_at(
                width as int,
                height as int,
                pixel.x as int,
                pixel.y as int,
                i,
            ) {
                color
            } else {
                old(buffer)@[i]
            }),
{
    let n: usize = buffer.len();
    let row: i64 = height as i64 - pixel.y as i64;
    if pixel.x >= 0 && (pixel.x as i64) < width as i64 - 1 && row >= 0 && row < height as i64 - 1 {
        proof {
            let w = width as int;
            let h = height as int;
            let r = row as int;
            let px = pixel.x as int;
            assert(0 <= r * w + px && r * w + px < h * w && r * w + px
                < 0x4000000000000000) by (nonlinear_arith)
                requires
                    0 <= r,
                    r <= h - 2,
                    0 <= px,
                    px <= w - 2,
                    2 <= w <= 0x80000000,
                    2 <= h <= 0x80000000,
            ;
        }
        let idx_wide: i64 = row * (width as i64) + (pixel.x as i64);
        proof {
            assert((height as int) * (width as int) == (width as int) * (height as int))
                by (nonlinear_arith);
            assert(0 <= idx_wide as int && (idx_wide as int) < (n as int));
        }
        let idx: usize = idx_wide as usize;
        buffer[idx] = color;
    }
}

/// Whether painting the column of pixels `(x, y)` for `y` in
/// `[ylo, yhi)`, each translated by the camera, touches buffer index `i`.
pub open spec fn col_hits(
    x: int,
    ylo: int,
    yhi: int,
    cam: Point,
    width: int,
    height: int,
    i: int,
) -> bool {
    exists|y: int| ylo <= y < yhi && #[trigger] writes_at(width, height, x - cam.x, y - cam.y, i)
}

proof fn lemma_col_hits_intro(
    x: int,
    ylo: int,
    yhi: int,
    cam: Point,
    width: int,
    height: int,
    i: int,
    y: int,
)
    requires
        ylo <= y < yhi,
        writes_at(width, height, x - cam.x, y - cam.y, i),
    ensures
        col_hits(x, ylo, yhi, cam, width, height, i),
{
}

/// Whether painting the row of pixels `(x, y)` for `x` in `[xlo, xhi)`,
/// each translated by the camera, touches buffer index `i`.
pub open spec fn row_hits(
    y: int,
    xlo: int,
    xhi: int,
    cam: Point,
    width: int,
    height: int,
    i: int,
) -> bool {
    exists|x: int| xlo <= x < xhi && #[trigger] writes_at(width, height, x - cam.x, y - cam.y, i)
}

proof fn lemma_row_hits_intro(
    y: int,
    xlo: int,
    xhi: int,
    cam: Point,
    width: int,
    height: int,
    i: int,
    x: int,
)
    requires
        xlo <= x < xhi,
        writes_at(width, height, x - cam.x, y - cam.y, i),
    ensures
        row_hits(y, xlo, xhi, cam, width, height, i),
{
}

/// Paint the vertical run of world pixels `(x, y)` for `y` in
/// `[y_from, y_to)`.
fn paint_col(
    x: i32,
    y_from: i32,
    y_to: i32,
    camera: &Point,
    buffer: &mut Vec<u32>,
    color: u32,
    width: i32,
    height: i32,
)
    requires
        y_from <= y_to,
        0 < width,
        0 < height,
        old(buffer)@.len() == width * height,
        i32::MIN <= x - camera.x <= i32::MAX,
        i32::MIN <= y_from - camera.y,
        y_to - camera.y <= i32::MAX + 1,
    ensures
        final(buffer)@.len() == old(buffer)@.len(),
        forall|i: int|
            0 <= i < final(buffer)@.len() ==> final(buffer)@[i] == (if col_hits(
                x as int,
                y_from as int,
                y_to as int,
                *camera,
                width as int,
                height as int,
                i,
            ) {
                color
            } else {
                old(buffer)@[i]
            }),
{
    let ghost w = width as int;
    let ghost h = height as int;
    let mut y: i32 = y_from;
    while y < y_to
        invariant
            y_from <= y <= y_to,
            buffer@.len() == old(buffer)@.len(),
            forall|i: int|
                0 <= i < buffer@.len() ==> buffer@[i] == (if col_hits(
                    x as int,
                    y_from as int,
                    y as int,
                    *camera,
                    w,
                    h,
                    i,
                ) {
                    color
                } else {
                    old(buffer)@[i]
                }),
        decreases y_to - y,
    {
        let ghost prev = buffer@;
        let p = world_to_screen(&Point::new(x, y), camera);
        draw_pixel(&p, buffer, color, width, height);
        proof {
            let sx = x as int - camera.x as int;
            let sy = y as int - camera.y as int;
            assert forall|i: int| 0 <= i < buffer@.len() implies buffer@[i] == (if col_hits(
                x as int,
                y_from as int,
                y as int + 1,
                *camera,
                w,
                h,
                i,
            ) {
                color
            } else {
                old(buffer)@[i]
            }) by {
                if writes_at(w, h, sx, sy, i) {
                    lemma_col_hits_intro(x as int, y_from as int, y as int + 1, *camera, w, h, i, y as int);
                    assert(buffer@[i] == color);
                } else {
                    assert(buffer@[i] == prev[i]);
                    if col_hits(x as int, y_from as int, y as int + 1, *camera, w, h, i) {
                        let yy = choose|yy: int|
                            y_from <= yy < y as int + 1 && #[trigger] writes_at(
                                w,
                                h,
                                x as int - camera.x,
                                yy - camera.y,
                                i,
                            );
                        assert(yy != y as int);
                        lemma_col_hits_intro(x as int, y_from as int, y as int, *camera, w, h, i, yy);
                        assert(prev[i] == color);
                    } else {
                        if col_hits(x as int, y_from as int, y as int, *camera, w, h, i) {
                            let yy = choose|yy: int|
                                y_from <= yy < y as int && #[trigger] writes_at(
                                    w,
                                    h,
                                    x as int - camera.x,
                                    yy - camera.y,
                                    i,
                                );
                            lemma_col_hits_intro(
                                x as int,
                                y_from as int,
                                y as int + 1,
                                *camera,
                                w,
                                h,
                                i,
                                yy,
                            );
                            assert(false);
                        }
                        assert(prev[i] == old(buffer)@[i]);
                    }
                }
            }
        }
        y = y + 1;
    }
}

/// Paint the horizontal run of world pixels `(x, y)` for `x` in
/// `[x_from, x_to)`.
fn paint_row(
    y: i32,
    x_from: i32,
    x_to: i32,
    camera: &Point,
    buffer: &mut Vec<u32>,
    color: u32,
    width: i32,
    height: i32,
)
    requires
        x_from <= x_to,
        0 < width,
        0 < height,
        old(buffer)@.len() == width * height,
        i32::MIN <= y - camera.y <= i32::MAX,
        i32::MIN <= x_from - camera.x,
        x_to - camera.x <= i32::MAX + 1,
    ensures
        final(buffer)@.len() == old(buffer)@.len(),
        forall|i: int|
            0 <= i < final(buffer)@.len() ==> final(buffer)@[i] == (if row_hits(
                y as int,
                x_from as int,
                x_to as int,
                *camera,
                width as int,
                height as int,
                i,
            ) {
                color
            } else {
                old(buffer)@[i]
            }),
{
    let ghost w = width as int;
    let ghost h = height as int;
    let mut x: i32 = x_from;
    while x < x_to
        invariant
            x_from <= x <= x_to,
            buffer@.len() == old(buffer)@.len(),
            forall|i: int|
                0 <= i < buffer@.len() ==> buffer@[i] == (if row_hits(
                    y as int,
                    x_from as int,
                    x as int,
                    *camera,
                    w,
                    h,
                    i,
                ) {
                    color
                } else {
                    old(buffer)@[i]
                }),
        decreases x_to - x,
    {
        let ghost prev = buffer@;
        let p = world_to_screen(&Point::new(x, y), camera);
        draw_pixel(&p, buffer, color, width, height);
        proof {
            let sx = x as int - camera.x as int;
            let sy = y as int - camera.y as int;
            assert forall|i: int| 0 <= i < buffer@.len() implies buffer@[i] == (if row_hits(
                y as int,
                x_from as int,
                x as int + 1,
                *camera,
                w,
                h,
                i,
            ) {
                color
            } else {
                old(buffer)@[i]
            }) by {
                if writes_at(w, h, sx, sy, i) {
                    lemma_row_hits_intro(y as int, x_from as int, x as int + 1, *camera, w, h, i, x as int);
                    assert(buffer@[i] == color);
                } else {
                    assert(buffer@[i] == prev[i]);
                    if row_hits(y as int, x_from as int, x as int + 1, *camera, w, h, i) {
                        let xx = choose|xx: int|
                            x_from <= xx < x as int + 1 && #[trigger] writes_at(
                                w,
                                h,
                                xx - camera.x,
                                y as int - camera.y,
                                i,
                            );
                        assert(xx != x as int);
                        lemma_row_hits_intro(y as int, x_from as int, x as int, *camera, w, h, i, xx);
                        assert(prev[i] == color);
                    } else {
                        if row_hits(y as int, x_from as int, x as int, *camera, w, h, i) {
                            let xx = choose|xx: int|
                                x_from <= xx < x as int && #[trigger] writes_at(
                                    w,
                                    h,
                                    xx - camera.x,
                                    y as int - camera.y,
                                    i,
                                );
                            lemma_row_hits_intro(
                                y as int,
                                x_from as int,
                                x as int + 1,
                                *camera,
                                w,
                                h,
                                i,
                                xx,
                            );
                            assert(false);
                        }
                        assert(prev[i] == old(buffer)@[i]);
                    }
                }
            }
        }
        x = x + 1;
    }
}

/// The set of world pixels a line between `p1` and `p2` paints.
/// Vertical and horizontal segments paint their half-open coordinate
/// range.  A general segment paints, for each x column in the half-open x
/// range, the vertical run connecting the line's truncated y at `x` with
/// its truncated y at `x + 1`, so steep segments stay gap-free.
pub open spec fn line_covers(p1: Point, p2: Point, x: int, y: int) -> bool {
    if p1.x == p2.x {
        x == p1.x && vstd::math::min(p1.y as int, p2.y as int) <= y < vstd::math::max(
            p1.y as int,
            p2.y as int,
        )
    } else if p1.y == p2.y {
        y == p1.y && vstd::math::min(p1.x as int, p2.x as int) <= x < vstd::math::max(
            p1.x as int,
            p2.x as int,
        )
    } else {
        let l = LinearFunction::from_points_spec(p1, p2);
        let ya = l.solve_y_spec(x);
        let yb = l.solve_y_spec(x + 1);
        &&& vstd::math::min(p1.x as int, p2.x as int) <= x < vstd::math::max(
            p1.x as int,
            p2.x as int,
        )
        &&& vstd::math::min(ya, yb) <= y < vstd::math::max(ya, yb)
    }
}

/// Whether rasterizing the line from `p1` to `p2` under the given camera
/// touches buffer index `i`.
pub open spec fn line_hits(
    p1: Point,
    p2: Point,
    cam: Point,
    width: int,
    height: int,
    i: int,
) -> bool {
    exists|x: int, y: int|
        line_covers(p1, p2, x, y) && #[trigger] writes_at(width, height, x - cam.x, y - cam.y, i)
}

proof fn lemma_line_hits_intro(
    p1: Point,
    p2: Point,
    cam: Point,
    width: int,
    height: int,
    i: int,
    x: int,
    y: int,
)
    requires
        line_covers(p1, p2, x, y),
        writes_at(width, height, x - cam.x, y - cam.y, i),
    ensures
        line_hits(p1, p2, cam, width, height, i),
{
}

spec fn line_hits_upto(
    p1: Point,
    p2: Point,
    cam: Point,
    width: int,
    height: int,
    xlim: int,
    i: int,
) -> bool {
    exists|x: int, y: int|
        line_covers(p1, p2, x, y) && x < xlim && #[trigger] writes_at(
            width,
            height,
            x - cam.x,
            y - cam.y,
            i,
        )
}

proof fn lemma_line_hits_upto_intro(
    p1: Point,
    p2: Point,
    cam: Point,
    width: int,
    height: int,
    xlim: int,
    i: int,
    x: int,
    y: int,
)
    requires
        line_covers(p1, p2, x, y),
        x < xlim,
        writes_at(width, height, x - cam.x, y - cam.y, i),
    ensures
        line_hits_upto(p1, p2, cam, width, height, xlim, i),
{
}

/// Rasterize the segment from `p1` to `p2` (world coordinates) into the
/// buffer, translating by the camera, with no gaps between adjacent
/// columns.  Exactly the pixels of `line_covers` that survive the bounds
/// check receive `color`; every other index keeps its old value.
pub fn draw_line(
    p1: &Point,
    p2: &Point,
    camera: &Point,
    buffer: &mut Vec<u32>,
    color: u32,
    width: i32,
    height: i32,
)
    requires
        0 < width,
        0 < height,
        old(buffer)@.len() == width * height,
        i32::MIN <= p1.x - camera.x <= i32::MAX,
        i32::MIN <= p2.x - camera.x <= i32::MAX,
        i32::MIN <= p1.y - camera.y <= i32::MAX,
        i32::MIN <= p2.y - camera.y <= i32::MAX,
    ensures
        final(buffer)@.len() == old(buffer)@.len(),
        forall|i: int|
            0 <= i < final(buffer)@.len() ==> final(buffer)@[i] == (if line_hits(
                *p1,
                *p2,
                *camera,
                width as int,
                height as int,
                i,
            ) {
                color
            } else {
                old(buffer)@[i]
            }),
{
    let ghost w = width as int;
    let ghost h = height as int;
    // A vertical segment has no slope; paint its y range directly.
    if p1.x == p2.x {
        let r = order_range(p1.y, p2.y);
        paint_col(p1.x, r.start, r.end, camera, buffer, color, width, height);
        proof {
            assert forall|i: int| 0 <= i < buffer@.len() implies buffer@[i] == (if line_hits(
                *p1,
                *p2,
                *camera,
                w,
                h,
                i,
            ) {
                color
            } else {
                old(buffer)@[i]
            }) by {
                if col_hits(p1.x as int, r.start as int, r.end as int, *camera, w, h, i) {
                    let yy = choose|yy: int|
                        r.start <= yy < r.end && #[trigger] writes_at(
                            w,
                            h,
                            p1.x as int - camera.x,
                            yy - camera.y,
                            i,
                        );
                    lemma_line_hits_intro(*p1, *p2, *camera, w, h, i, p1.x as int, yy);
                } else if line_hits(*p1, *p2, *camera, w, h, i) {
                    let (xx, yy) = choose|xx: int, yy: int|
                        line_covers(*p1, *p2, xx, yy) && #[trigger] writes_at(
                            w,
                            h,
                            xx - camera.x,
                            yy - camera.y,
                            i,
                        );
                    lemma_col_hits_intro(
                        p1.x as int,
                        r.start as int,
                        r.end as int,
                        *camera,
                        w,
                        h,
                        i,
                        yy,
                    );
                    assert(false);
                }
            }
        }
        return ;
    }
    // A horizontal segment needs no line equation either.
    if p1.y == p2.y {
        let r = order_range(p1.x, p2.x);
        paint_row(p1.y, r.start, r.end, camera, buffer, color, width, height);
        proof {
            assert forall|i: int| 0 <= i < buffer@.len() implies buffer@[i] == (if line_hits(
                *p1,
                *p2,
                *camera,
                w,
                h,
                i,
            ) {
                color
            } else {
                old(buffer)@[i]
            }) by {
                if row_hits(p1.y as int, r.start as int, r.end as int, *camera, w, h, i) {
                    let xx = choose|xx: int|
                        r.start <= xx < r.end && #[trigger] writes_at(
                            w,
                            h,
                            xx - camera.x,
                            p1.y as int - camera.y,
                            i,
                        );
                    lemma_line_hits_intro(*p1, *p2, *camera, w, h, i, xx, p1.y as int);
                } else if line_hits(*p1, *p2, *camera, w, h, i) {
                    let (xx, yy) = choose|xx: int, yy: int|
                        line_covers(*p1, *p2, xx, yy) && #[trigger] writes_at(
                            w,
                            h,
                            xx - camera.x,
                            yy - camera.y,
                            i,
                        );
                    lemma_row_hits_intro(
                        p1.y as int,
                        r.start as int,
                        r.end as int,
                        *camera,
                        w,
                        h,
                        i,
                        xx,
                    );
                    assert(false);
                }
            }
        }
        return ;
    }
    // General slope: scan the x range, connecting each column's truncated
    // y to the next column's so that steep lines stay connected.
    let fx = LinearFunction::from_points(p1, p2);
    let r = order_range(p1.x, p2.x);
    let mut x: i32 = r.start;
    while x < r.end
        invariant
            r.start <= x <= r.end,
            buffer@.len() == old(buffer)@.len(),
            forall|i: int|
                0 <= i < buffer@.len() ==> buffer@[i] == (if line_hits_upto(
                    *p1,
                    *p2,
                    *camera,
                    w,
                    h,
                    x as int,
                    i,
                ) {
                    color
                } else {
                    old(buffer)@[i]
                }),
        decreases r.end - x,
    {
        proof {
            crate::linear_function::lemma_solve_y_spec_in_segment(*p1, *p2, x as int);
            crate::linear_function::lemma_solve_y_spec_in_segment(*p1, *p2, x as int + 1);
        }
        let y = fx.solve_y(x);
        let ny = fx.solve_y(x + 1);
        let lo = if y < ny {
            y
        } else {
            ny
        };
        let hi = if y < ny {
            ny
        } else {
            y
        };
        let ghost prev = buffer@;
        paint_col(x, lo, hi, camera, buffer, color, width, height);
        proof {
            assert forall|i: int| 0 <= i < buffer@.len() implies buffer@[i] == (if line_hits_upto(
                *p1,
                *p2,
                *camera,
                w,
                h,
                x as int + 1,
                i,
            ) {
                color
            } else {
                old(buffer)@[i]
            }) by {
                if col_hits(x as int, lo as int, hi as int, *camera, w, h, i) {
                    let yy = choose|yy: int|
                        lo <= yy < hi && #[trigger] writes_at(
                            w,
                            h,
                            x as int - camera.x,
                            yy - camera.y,
                            i,
                        );
                    assert(line_covers(*p1, *p2, x as int, yy));
                    lemma_line_hits_upto_intro(
                        *p1,
                        *p2,
                        *camera,
                        w,
                        h,
                        x as int + 1,
                        i,
                        x as int,
                        yy,
                    );
                    assert(buffer@[i] == color);
                } else {
                    assert(buffer@[i] == prev[i]);
                    if line_hits_upto(*p1, *p2, *camera, w, h, x as int + 1, i) {
                        let (xx, yy) = choose|xx: int, yy: int|
                            line_covers(*p1, *p2, xx, yy) && xx < x as int + 1 && #[trigger] writes_at(
                                w,
                                h,
                                xx - camera.x,
                                yy - camera.y,
                                i,
                            );
                        if xx == x as int {
                            lemma_col_hits_intro(
                                x as int,
                                lo as int,
                                hi as int,
                                *camera,
                                w,
                                h,
                                i,
                                yy,
                            );
                            assert(false);
                        } else {
                            lemma_line_hits_upto_intro(
                                *p1,
                                *p2,
                                *camera,
                                w,
                                h,
                                x as int,
                                i,
                                xx,
                                yy,
                            );
                            assert(prev[i] == color);
                        }
                    } else {
                        if line_hits_upto(*p1, *p2, *camera, w, h, x as int, i) {
                            let (xx, yy) = choose|xx: int, yy: int|
                                line_covers(*p1, *p2, xx, yy) && xx < x as int && #[trigger] writes_at(
                                    w,
                                    h,
                                    xx - camera.x,
                                    yy - camera.y,
                                    i,
                                );
                            lemma_line_hits_upto_intro(
                                *p1,
                                *p2,
                                *camera,
                                w,
                                h,
                                x as int + 1,
                                i,
                                xx,
                                yy,
                            );
                            assert(false);
                        }
                        assert(prev[i] == old(buffer)@[i]);
                    }
                }
            }
        }
        x = x + 1;
    }
    proof {
        assert forall|i: int| 0 <= i < buffer@.len() implies buffer@[i] == (if line_hits(
            *p1,
            *p2,
            *camera,
            w,
            h,
            i,
        ) {
            color
        } else {
            old(buffer)@[i]
        }) by {
            if line_hits_upto(*p1, *p2, *camera, w, h, x as int, i) {
                let (xx, yy) = choose|xx: int, yy: int|
                    line_covers(*p1, *p2, xx, yy) && xx < x as int && #[trigger] writes_at(
                        w,
                        h,
                        xx - camera.x,
                        yy - camera.y,
                        i,
                    );
                lemma_line_hits_intro(*p1, *p2, *camera, w, h, i, xx, yy);
            } else if line_hits(*p1, *p2, *camera, w, h, i) {
                let (xx, yy) = choose|xx: int, yy: int|
                    line_covers(*p1, *p2, xx, yy) && #[trigger] writes_at(
                        w,
                        h,
                        xx - camera.x,
                        yy - camera.y,
                        i,
                    );
                lemma_line_hits_upto_intro(*p1, *p2, *camera, w, h, x as int, i, xx, yy);
                assert(false);
            }
        }
    }
}

/// Whether the half-open row range `[ya, yb)` (in either order) stays
/// within the y span of the line, so that `solve_x` is answerable on
/// every scanned row.
pub open spec fn span_ok(l: LinearFunction, ya: int, yb: int) -> bool {
    match l {
        LinearFunction::Standard { y1, y2, .. } => {
            &&& y1 != y2
            &&& vstd::math::min(y1 as int, y2 as int) <= vstd::math::min(ya, yb)
            &&& vstd::math::max(ya, yb) <= vstd::math::max(y1 as int, y2 as int) + 1
        },
        LinearFunction::Vertical { .. } => true,
    }
}

/// Solving a standard line for x anywhere inside its y span lands between
/// its two x endpoints, hence inside `i32`.
pub proof fn lemma_solve_x_spec_in_span(l: LinearFunction, y: int)
    requires
        l.wf(),
        l.solvable_x(),
        match l {
            LinearFunction::Standard { y1, y2, .. } => vstd::math::min(y1 as int, y2 as int) <= y
                <= vstd::math::max(y1 as int, y2 as int),
            LinearFunction::Vertical { .. } => true,
        },
    ensures
        i32::MIN <= l.solve_x_spec(y) <= i32::MAX,
{
    match l {
        LinearFunction::Standard { x1, y1, x2, y2 } => {
            lemma_interp_bounds(y1 as int, x1 as int, y2 as int, x2 as int, y);
        },
        LinearFunction::Vertical { .. } => {},
    }
}

/// The set of screen pixels painted when the rows between `y1` and `y2`
/// (half-open over the ordered pair) are each filled between the
/// truncated x values of the two bounding lines (half-open over the
/// ordered pair again).
pub open spec fn flat_covers(
    line1: LinearFunction,
    line2: LinearFunction,
    y1: int,
    y2: int,
    sx: int,
    sy: int,
) -> bool {
    let xa = line1.solve_x_spec(sy);
    let xb = line2.solve_x_spec(sy);
    &&& vstd::math::min(y1, y2) <= sy < vstd::math::max(y1, y2)
    &&& vstd::math::min(xa, xb) <= sx < vstd::math::max(xa, xb)
}

/// Whether filling between the two lines over the given row range touches
/// buffer index `i`.
pub open spec fn flat_hits(
    line1: LinearFunction,
    line2: LinearFunction,
    y1: int,
    y2: int,
    width: int,
    height: int,
    i: int,
) -> bool {
    exists|sx: int, sy: int|
        flat_covers(line1, line2, y1, y2, sx, sy) && #[trigger] writes_at(width, height, sx, sy, i)
}

proof fn lemma_flat_hits_intro(
    line1: LinearFunction,
    line2: LinearFunction,
    y1: int,
    y2: int,
    width: int,
    height: int,
    i: int,
    sx: int,
    sy: int,
)
    requires
        flat_covers(line1, line2, y1, y2, sx, sy),
        writes_at(width, height, sx, sy, i),
    ensures
        flat_hits(line1, line2, y1, y2, width, height, i),
{
}

spec fn flat_hits_upto(
    line1: LinearFunction,
    line2: LinearFunction,
    y1: int,
    y2: int,
    width: int,
    height: int,
    ylim: int,
    i: int,
) -> bool {
    exists|sx: int, sy: int|
        flat_covers(line1, line2, y1, y2, sx, sy) && sy < ylim && #[trigger] writes_at(
            width,
            height,
            sx,
            sy,
            i,
        )
}

proof fn lemma_flat_hits_upto_intro(
    line1: LinearFunction,
    line2: LinearFunction,
    y1: int,
    y2: int,
    width: int,
    height: int,
    ylim: int,
    i: int,
    sx: int,
    sy: int,
)
    requires
        flat_covers(line1, line2, y1, y2, sx, sy),
        sy < ylim,
        writes_at(width, height, sx, sy, i),
    ensures
        flat_hits_upto(line1, line2, y1, y2, width, height, ylim, i),
{
}

/// Fill the rows between `y1` and `y2` (half-open over the ordered pair),
/// bounding each row between the truncated x values of the two lines.
/// Points are already in screen space here; no camera is applied.
pub fn fill_flat_base_triangle(
    line1: &LinearFunction,
    line2: &LinearFunction,
    y1: i32,
    y2: i32,
    buffer: &mut Vec<u32>,
    color: u32,
    width: i32,
    height: i32,
)
    requires
        0 < width,
        0 < height,
        old(buffer)@.len() == width * height,
        line1.wf(),
        line2.wf(),
        span_ok(*line1, y1 as int, y2 as int),
        span_ok(*line2, y1 as int, y2 as int),
    ensures
        final(buffer)@.len() == old(buffer)@.len(),
        forall|i: int|
            0 <= i < final(buffer)@.len() ==> final(buffer)@[i] == (if flat_hits(
                *line1,
                *line2,
                y1 as int,
                y2 as int,
                width as int,
                height as int,
                i,
            ) {
                color
            } else {
                old(buffer)@[i]
            }),
{
    let ghost w = width as int;
    let ghost h = height as int;
    let zero = Point { x: 0, y: 0 };
    let r = order_range(y1, y2);
    let mut y: i32 = r.start;
    while y < r.end
        invariant
            r.start <= y <= r.end,
            buffer@.len() == old(buffer)@.len(),
            forall|i: int|
                0 <= i < buffer@.len() ==> buffer@[i] == (if flat_hits_upto(
                    *line1,
                    *line2,
                    y1 as int,
                    y2 as int,
                    w,
                    h,
                    y as int,
                    i,
                ) {
                    color
                } else {
                    old(buffer)@[i]
                }),
        decreases r.end - y,
    {
        proof {
            lemma_solve_x_spec_in_span(*line1, y as int);
            lemma_solve_x_spec_in_span(*line2, y as int);
        }
        let xa = line1.solve_x(y);
        let xb = line2.solve_x(y);
        let lo = if xa < xb {
            xa
        } else {
            xb
        };
        let hi = if xa < xb {
            xb
        } else {
            xa
        };
        let ghost prev = buffer@;
        paint_row(y, lo, hi, &zero, buffer, color, width, height);
        proof {
            assert forall|i: int| 0 <= i < buffer@.len() implies buffer@[i] == (if flat_hits_upto(
                *line1,
                *line2,
                y1 as int,
                y2 as int,
                w,
                h,
                y as int + 1,
                i,
            ) {
                color
            } else {
                old(buffer)@[i]
            }) by {
                if row_hits(y as int, lo as int, hi as int, zero, w, h, i) {
                    let xx = choose|xx: int|
                        lo <= xx < hi && #[trigger] writes_at(
                            w,
                            h,
                            xx - zero.x,
                            y as int - zero.y,
                            i,
                        );
                    assert(flat_covers(*line1, *line2, y1 as int, y2 as int, xx, y as int));
                    lemma_flat_hits_upto_intro(
                        *line1,
                        *line2,
                        y1 as int,
                        y2 as int,
                        w,
                        h,
                        y as int + 1,
                        i,
                        xx,
                        y as int,
                    );
                    assert(buffer@[i] == color);
                } else {
                    assert(buffer@[i] == prev[i]);
                    if flat_hits_upto(*line1, *line2, y1 as int, y2 as int, w, h, y as int + 1, i) {
                        let (sx, sy) = choose|sx: int, sy: int|
                            flat_covers(*line1, *line2, y1 as int, y2 as int, sx, sy) && sy < y as int
                                + 1 && #[trigger] writes_at(w, h, sx, sy, i);
                        if sy == y as int {
                            lemma_row_hits_intro(y as int, lo as int, hi as int, zero, w, h, i, sx);
                            assert(false);
                        } else {
                            lemma_flat_hits_upto_intro(
                                *line1,
                                *line2,
                                y1 as int,
                                y2 as int,
                                w,
                                h,
                                y as int,
                                i,
                                sx,
                                sy,
                            );
                            assert(prev[i] == color);
                        }
                    } else {
                        if flat_hits_upto(*line1, *line2, y1 as int, y2 as int, w, h, y as int, i) {
                            let (sx, sy) = choose|sx: int, sy: int|
                                flat_covers(*line1, *line2, y1 as int, y2 as int, sx, sy) && sy
                                    < y as int && #[trigger] writes_at(w, h, sx, sy, i);
                            lemma_flat_hits_upto_intro(
                                *line1,
                                *line2,
                                y1 as int,
                                y2 as int,
                                w,
                                h,
                                y as int + 1,
                                i,
                                sx,
                                sy,
                            );
                            assert(false);
                        }
                        assert(prev[i] == old(buffer)@[i]);
                    }
                }
            }
        }
        y = y + 1;
    }
    proof {
        assert forall|i: int| 0 <= i < buffer@.len() implies buffer@[i] == (if flat_hits(
            *line1,
            *line2,
            y1 as int,
            y2 as int,
            w,
            h,
            i,
        ) {
            color
        } else {
            old(buffer)@[i]
        }) by {
            if flat_hits_upto(*line1, *line2, y1 as int, y2 as int, w, h, y as int, i) {
                let (sx, sy) = choose|sx: int, sy: int|
                    flat_covers(*line1, *line2, y1 as int, y2 as int, sx, sy) && sy < y as int
                        && #[trigger] writes_at(w, h, sx, sy, i);
                lemma_flat_hits_intro(*line1, *line2, y1 as int, y2 as int, w, h, i, sx, sy);
            } else if flat_hits(*line1, *line2, y1 as int, y2 as int, w, h, i) {
                let (sx, sy) = choose|sx: int, sy: int|
                    flat_covers(*line1, *line2, y1 as int, y2 as int, sx, sy) && #[trigger] writes_at(
                        w,
                        h,
                        sx,
                        sy,
                        i,
                    );
                lemma_flat_hits_upto_intro(
                    *line1,
                    *line2,
                    y1 as int,
                    y2 as int,
                    w,
                    h,
                    y as int,
                    i,
                    sx,
                    sy,
                );
                assert(false);
            }
        }
    }
}

/// The camera transform as the fill stage applies it to each vertex
/// before sorting.  Exact whenever the difference fits in `i32`, which
/// `draw_triangle` requires.
pub open spec fn screen_pt(p: Point, cam: Point) -> Point {
    Point { x: (p.x - cam.x) as i32, y: (p.y - cam.y) as i32 }
}

/// The three points ordered by descending y, exactly as the fill stage
/// orders them (a fixed three-comparison network; ties keep their
/// relative order).
pub open spec fn sort3_desc_y(p: Point, q: Point, s: Point) -> (Point, Point, Point) {
    let (a1, b1) = if p.y < q.y {
        (q, p)
    } else {
        (p, q)
    };
    let (b2, c2) = if b1.y < s.y {
        (s, b1)
    } else {
        (b1, s)
    };
    let (a3, b3) = if a1.y < b2.y {
        (b2, a1)
    } else {
        (a1, b2)
    };
    (a3, b3, c2)
}

/// The set of screen pixels a filled triangle paints: with the
/// transformed vertices sorted descending by y into `(a, b, c)`, the rows
/// between `a.y` and `b.y` are bounded by the long side `a->c` and the
/// edge `a->b`, and the rows between `b.y` and `c.y` by the long side and
/// the edge `b->c`.  When all three y values coincide neither region is
/// scanned and nothing is painted.
pub open spec fn fill_covers(t: Triangle, cam: Point, sx: int, sy: int) -> bool {
    let s1 = screen_pt(t.p1, cam);
    let s2 = screen_pt(t.p2, cam);
    let s3 = screen_pt(t.p3, cam);
    let (a, b, c) = sort3_desc_y(s1, s2, s3);
    ||| (a.y != b.y && flat_covers(
        LinearFunction::from_points_spec(a, c),
        LinearFunction::from_points_spec(a, b),
        a.y as int,
        b.y as int,
        sx,
        sy,
    ))
    ||| (b.y != c.y && flat_covers(
        LinearFunction::from_points_spec(a, c),
        LinearFunction::from_points_spec(b, c),
        b.y as int,
        c.y as int,
        sx,
        sy,
    ))
}

/// Whether filling the triangle touches buffer index `i`.
pub open spec fn fill_hits(t: Triangle, cam: Point, width: int, height: int, i: int) -> bool {
    exists|sx: int, sy: int|
        fill_covers(t, cam, sx, sy) && #[trigger] writes_at(width, height, sx, sy, i)
}

proof fn lemma_fill_hits_intro(
    t: Triangle,
    cam: Point,
    width: int,
    height: int,
    i: int,
    sx: int,
    sy: int,
)
    requires
        fill_covers(t, cam, sx, sy),
        writes_at(width, height, sx, sy, i),
    ensures
        fill_hits(t, cam, width, height, i),
{
}

/// Whether drawing the triangle touches buffer index `i`: the union of
/// its three outline segments in `WireFrame` mode, the scanline fill
/// region in `Fill` mode.
pub open spec fn triangle_hits(t: Triangle, cam: Point, width: int, height: int, i: int) -> bool {
    match t.draw_method {
        DrawMethod::WireFrame => {
            ||| line_hits(t.p1, t.p2, cam, width, height, i)
            ||| line_hits(t.p2, t.p3, cam, width, height, i)
            ||| line_hits(t.p3, t.p1, cam, width, height, i)
        },
        DrawMethod::Fill => fill_hits(t, cam, width, height, i),
    }
}

/// Draw one triangle into the buffer under the given camera offset.
/// Exactly the pixels of `triangle_hits` receive the triangle's color;
/// every other index keeps its old value.
pub fn draw_triangle(triangle: &Triangle, camera: &Point, buffer: &mut Vec<u32>, width: i32, height: i32)
    requires
        0 < width,
        0 < height,
        old(buffer)@.len() == width * height,
        i32::MIN <= triangle.p1.x - camera.x <= i32::MAX,
        i32::MIN <= triangle.p1.y - camera.y <= i32::MAX,
        i32::MIN <= triangle.p2.x - camera.x <= i32::MAX,
        i32::MIN <= triangle.p2.y - camera.y <= i32::MAX,
        i32::MIN <= triangle.p3.x - camera.x <= i32::MAX,
        i32::MIN <= triangle.p3.y - camera.y <= i32::MAX,
    ensures
        final(buffer)@.len() == old(buffer)@.len(),
        forall|i: int|
            0 <= i < final(buffer)@.len() ==> final(buffer)@[i] == (if triangle_hits(
                *triangle,
                *camera,
                width as int,
                height as int,
                i,
            ) {
                triangle.color
            } else {
                old(buffer)@[i]
            }),
{
    let ghost w = width as int;
    let ghost h = height as int;
    match triangle.draw_method {
        DrawMethod::WireFrame => {
            draw_line(&triangle.p1, &triangle.p2, camera, buffer, triangle.color, width, height);
            let ghost bufa = buffer@;
            draw_line(&triangle.p2, &triangle.p3, camera, buffer, triangle.color, width, height);
            let ghost bufb = buffer@;
            draw_line(&triangle.p3, &triangle.p1, camera, buffer, triangle.color, width, height);
            proof {
                assert forall|i: int| 0 <= i < buffer@.len() implies buffer@[i] == (if triangle_hits(
                    *triangle,
                    *camera,
                    w,
                    h,
                    i,
                ) {
                    triangle.color
                } else {
                    old(buffer)@[i]
                }) by {
                    assert(bufa[i] == (if line_hits(triangle.p1, triangle.p2, *camera, w, h, i) {
                        triangle.color
                    } else {
                        old(buffer)@[i]
                    }));
                }
            }
        },
        DrawMethod::Fill => {
            // Transform all three vertices to screen space up front, then
            // order them by descending y.
            let s1 = world_to_screen(&triangle.p1, camera);
            let s2 = world_to_screen(&triangle.p2, camera);
            let s3 = world_to_screen(&triangle.p3, camera);
            let mut a = s1;
            let mut b = s2;
            let mut c = s3;
            if a.y < b.y {
                let t = a;
                a = b;
                b = t;
            }
            if b.y < c.y {
                let t = b;
                b = c;
                c = t;
            }
            if a.y < b.y {
                let t = a;
                a = b;
                b = t;
            }
            proof {
                assert(s1 == screen_pt(triangle.p1, *camera));
                assert(s2 == screen_pt(triangle.p2, *camera));
                assert(s3 == screen_pt(triangle.p3, *camera));
                assert((a, b, c) == sort3_desc_y(s1, s2, s3));
                assert(a.y >= b.y >= c.y);
            }
            let ghost ls = LinearFunction::from_points_spec(a, c);
            // The upper flat-base half: rows from a.y down to b.y, bounded
            // by the long side a->c and the edge a->b.
            if a.y != b.y {
                let longside = LinearFunction::from_points(&a, &c);
                let edge = LinearFunction::from_points(&a, &b);
                fill_flat_base_triangle(&longside, &edge, a.y, b.y, buffer, triangle.color, width, height);
            }
            let ghost bufa = buffer@;
            // The lower flat-base half: rows from b.y down to c.y, bounded
            // by the long side a->c and the edge b->c.
            if b.y != c.y {
                let longside = LinearFunction::from_points(&a, &c);
                let edge = LinearFunction::from_points(&b, &c);
                fill_flat_base_triangle(&longside, &edge, b.y, c.y, buffer, triangle.color, width, height);
            }
            proof {
                let upper = LinearFunction::from_points_spec(a, b);
                let lower = LinearFunction::from_points_spec(b, c);
                assert forall|i: int| 0 <= i < buffer@.len() implies buffer@[i] == (if triangle_hits(
                    *triangle,
                    *camera,
                    w,
                    h,
                    i,
                ) {
                    triangle.color
                } else {
                    old(buffer)@[i]
                }) by {
                    let hit1 = a.y != b.y && flat_hits(ls, upper, a.y as int, b.y as int, w, h, i);
                    let hit2 = b.y != c.y && flat_hits(ls, lower, b.y as int, c.y as int, w, h, i);
                    assert(bufa[i] == (if hit1 {
                        triangle.color
                    } else {
                        old(buffer)@[i]
                    }));
                    assert(buffer@[i] == (if hit2 {
                        triangle.color
                    } else {
                        bufa[i]
                    }));
                    if hit1 {
                        let (sx, sy) = choose|sx: int, sy: int|
                            flat_covers(ls, upper, a.y as int, b.y as int, sx, sy)
                                && #[trigger] writes_at(w, h, sx, sy, i);
                        assert(fill_covers(*triangle, *camera, sx, sy));
                        lemma_fill_hits_intro(*triangle, *camera, w, h, i, sx, sy);
                    }
                    if hit2 {
                        let (sx, sy) = choose|sx: int, sy: int|
                            flat_covers(ls, lower, b.y as int, c.y as int, sx, sy)
                                && #[trigger] writes_at(w, h, sx, sy, i);
                        assert(fill_covers(*triangle, *camera, sx, sy));
                        lemma_fill_hits_intro(*triangle, *camera, w, h, i, sx, sy);
                    }
                    if !hit1 && !hit2 && fill_hits(*triangle, *camera, w, h, i) {
                        let (sx, sy) = choose|sx: int, sy: int|
                            fill_covers(*triangle, *camera, sx, sy) && #[trigger] writes_at(
                                w,
                                h,
                                sx,
                                sy,
                                i,
                            );
                        if a.y != b.y && flat_covers(ls, upper, a.y as int, b.y as int, sx, sy) {
                            lemma_flat_hits_intro(ls, upper, a.y as int, b.y as int, w, h, i, sx, sy);
                            assert(false);
                        } else {
                            lemma_flat_hits_intro(ls, lower, b.y as int, c.y as int, w, h, i, sx, sy);
                            assert(false);
                        }
                    }
                }
            }
        },
    }
}

/// Law: a fill-mode triangle whose three vertices share one y coordinate
/// paints nothing at all.
pub proof fn lemma_horizontal_triangle_fills_nothing(t: Triangle, cam: Point)
    requires
        t.p1.y == t.p2.y,
        t.p2.y == t.p3.y,
        t.draw_method == DrawMethod::Fill,
    ensures
        forall|sx: int, sy: int| !fill_covers(t, cam, sx, sy),
        forall|width: int, height: int, i: int| !triangle_hits(t, cam, width, height, i),
{
    assert forall|width: int, height: int, i: int| !triangle_hits(t, cam, width, height, i) by {
        if triangle_hits(t, cam, width, height, i) {
            let (sx, sy) = choose|sx: int, sy: int|
                fill_covers(t, cam, sx, sy) && #[trigger] writes_at(width, height, sx, sy, i);
            assert(false);
        }
    }
}

/// Law: the bounds check excludes the buffer's last column (screen
/// x == width - 1) and its last row (the row written by screen
/// y == 1, since rows are y-flipped); no buffer index is touched there.
pub proof fn lemma_boundary_excluded(width: int, height: int, sx: int, sy: int, i: int)
    ensures
        sx == width - 1 ==> !writes_at(width, height, sx, sy, i),
        height - sy == height - 1 ==> !writes_at(width, height, sx, sy, i),
{
}

} // verus!
