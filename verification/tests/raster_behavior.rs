use rasterizer::raster::draw_line;
use rasterizer::raster::draw_pixel;
use rasterizer::raster::draw_triangle;
use rasterizer::DrawMethod;
use rasterizer::Point;
use rasterizer::Triangle;

const RED: u32 = 255 << 16;

fn cell(buf: &[u32], width: i32, height: i32, sx: i32, sy: i32) -> u32 {
    buf[((height - sy) * width + sx) as usize]
}

fn painted(buf: &[u32]) -> usize {
    buf.iter().filter(|&&c| c != 0).count()
}

#[test]
fn draw_pixel_writes_inside() {
    let (w, h) = (8, 8);
    let mut buf = vec![0u32; 64];
    draw_pixel(&Point::new(6, 6), &mut buf, RED, w, h);
    assert_eq!(cell(&buf, w, h, 6, 6), RED);
    assert_eq!(painted(&buf), 1);
}

#[test]
fn draw_pixel_excludes_last_column() {
    let (w, h) = (8, 8);
    let mut buf = vec![0u32; 64];
    draw_pixel(&Point::new(w - 1, 4), &mut buf, RED, w, h);
    assert_eq!(painted(&buf), 0);
}

#[test]
fn draw_pixel_excludes_last_row() {
    let (w, h) = (8, 8);
    let mut buf = vec![0u32; 64];
    // The buffer row is h - y, so y == 1 maps to the excluded row h - 1
    // and y == 0 maps to row h, outside the buffer entirely.
    draw_pixel(&Point::new(3, 1), &mut buf, RED, w, h);
    draw_pixel(&Point::new(3, 0), &mut buf, RED, w, h);
    assert_eq!(painted(&buf), 0);
    // y == h - 1 maps to row 1, which is written: the exclusion is at the
    // top of the y range, not at y == h - 1.
    draw_pixel(&Point::new(3, h - 1), &mut buf, RED, w, h);
    assert_eq!(cell(&buf, w, h, 3, h - 1), RED);
    assert_eq!(painted(&buf), 1);
}

#[test]
fn draw_pixel_writes_one_inside_both_bounds() {
    let (w, h) = (8, 8);
    let mut buf = vec![0u32; 64];
    draw_pixel(&Point::new(w - 2, h - 2), &mut buf, RED, w, h);
    assert_eq!(cell(&buf, w, h, w - 2, h - 2), RED);
    assert_eq!(painted(&buf), 1);
}

#[test]
fn draw_pixel_drops_negative_coordinates() {
    let (w, h) = (8, 8);
    let mut buf = vec![0u32; 64];
    draw_pixel(&Point::new(-1, 4), &mut buf, RED, w, h);
    draw_pixel(&Point::new(4, h + 1), &mut buf, RED, w, h);
    assert_eq!(painted(&buf), 0);
}

#[test]
fn vertical_line_paints_half_open_range() {
    let (w, h) = (16, 16);
    let mut buf = vec![0u32; 256];
    let cam = Point::new(-3, -3);
    draw_line(&Point::new(0, 0), &Point::new(0, 10), &cam, &mut buf, RED, w, h);
    // Screen pixels: x == 3, y in [3, 13): exactly ten, none beyond.
    for sy in 3..13 {
        assert_eq!(cell(&buf, w, h, 3, sy), RED);
    }
    assert_eq!(cell(&buf, w, h, 3, 13), 0);
    assert_eq!(painted(&buf), 10);
}

#[test]
fn horizontal_line_paints_half_open_range() {
    let (w, h) = (16, 16);
    let mut buf = vec![0u32; 256];
    let cam = Point::new(-3, -3);
    draw_line(&Point::new(0, 0), &Point::new(10, 0), &cam, &mut buf, RED, w, h);
    for sx in 3..13 {
        assert_eq!(cell(&buf, w, h, sx, 3), RED);
    }
    assert_eq!(cell(&buf, w, h, 13, 3), 0);
    assert_eq!(painted(&buf), 10);
}

#[test]
fn diagonal_line_paints_one_pixel_per_column() {
    let (w, h) = (16, 16);
    let mut buf = vec![0u32; 256];
    let cam = Point::new(-3, -3);
    draw_line(&Point::new(0, 0), &Point::new(5, 5), &cam, &mut buf, RED, w, h);
    for k in 0..5 {
        assert_eq!(cell(&buf, w, h, 3 + k, 3 + k), RED);
    }
    assert_eq!(painted(&buf), 5);
}

#[test]
fn steep_line_stays_gap_free() {
    let (w, h) = (16, 16);
    let mut buf = vec![0u32; 256];
    let cam = Point::new(-3, -3);
    draw_line(&Point::new(0, 0), &Point::new(2, 10), &cam, &mut buf, RED, w, h);
    // Column x == 0 connects y 0..5, column x == 1 connects y 5..10.
    for sy in 3..8 {
        assert_eq!(cell(&buf, w, h, 3, sy), RED);
    }
    for sy in 8..13 {
        assert_eq!(cell(&buf, w, h, 4, sy), RED);
    }
    assert_eq!(painted(&buf), 10);
}

#[test]
fn shallow_line_skips_flat_columns() {
    // A consequence of the half-open column spans: where the truncated y
    // does not step between one column and the next, that column paints
    // nothing, so a slope-1/2 line paints only the stepping columns.
    let (w, h) = (16, 16);
    let mut buf = vec![0u32; 256];
    let cam = Point::new(-3, -3);
    draw_line(&Point::new(0, 0), &Point::new(10, 5), &cam, &mut buf, RED, w, h);
    for k in 0..5 {
        let x = 2 * k + 1;
        assert_eq!(cell(&buf, w, h, 3 + x, 3 + k), RED);
    }
    assert_eq!(painted(&buf), 5);
}

#[test]
fn line_is_clipped_at_buffer_edges() {
    let (w, h) = (8, 8);
    let mut buf = vec![0u32; 64];
    let cam = Point::new(0, 0);
    draw_line(&Point::new(0, -5), &Point::new(0, 5), &cam, &mut buf, RED, w, h);
    // Only y in {2, 3, 4} survive: y <= 1 maps to rows h-1 and beyond,
    // y in [-5, 0) is below the buffer.
    assert_eq!(painted(&buf), 3);
    for sy in 2..5 {
        assert_eq!(cell(&buf, w, h, 0, sy), RED);
    }
}

#[test]
fn triangle_fill_scanline_profile() {
    let (w, h) = (32, 32);
    let mut buf = vec![0u32; 1024];
    let cam = Point::new(-3, -3);
    let t = Triangle {
        p1: Point::new(0, 0),
        p2: Point::new(10, 0),
        p3: Point::new(5, 10),
        color: RED,
        draw_method: DrawMethod::Fill,
    };
    draw_triangle(&t, &cam, &mut buf, w, h);
    // Expected half-open spans per screen row (world y == sy - 3): full
    // ten-pixel width at the base, shrinking to nothing at the apex.
    let spans: [(i32, i32, i32); 10] = [
        (3, 3, 13),
        (4, 3, 12),
        (5, 4, 12),
        (6, 4, 11),
        (7, 5, 11),
        (8, 5, 10),
        (9, 6, 10),
        (10, 6, 9),
        (11, 7, 9),
        (12, 7, 8),
    ];
    let mut total = 0;
    for (sy, lo, hi) in spans {
        for sx in lo..hi {
            assert_eq!(cell(&buf, w, h, sx, sy), RED);
        }
        assert_eq!(cell(&buf, w, h, lo - 1, sy), 0);
        assert_eq!(cell(&buf, w, h, hi, sy), 0);
        total += hi - lo;
    }
    // Apex row paints nothing: the scanned y range is half-open.
    for sx in 0..w {
        assert_eq!(cell(&buf, w, h, sx, 13), 0);
    }
    assert_eq!(spans[0].2 - spans[0].1, 10);
    assert_eq!(painted(&buf), total as usize);
}

#[test]
fn horizontal_triangle_fills_nothing() {
    let (w, h) = (16, 16);
    let mut buf = vec![0u32; 256];
    let cam = Point::new(0, 0);
    let t = Triangle {
        p1: Point::new(2, 5),
        p2: Point::new(8, 5),
        p3: Point::new(11, 5),
        color: RED,
        draw_method: DrawMethod::Fill,
    };
    draw_triangle(&t, &cam, &mut buf, w, h);
    assert_eq!(painted(&buf), 0);
}

#[test]
fn fill_with_two_equal_y_vertices_is_sound() {
    let (w, h) = (32, 32);
    let mut buf = vec![0u32; 1024];
    let cam = Point::new(-3, -3);
    let t = Triangle {
        p1: Point::new(0, 5),
        p2: Point::new(10, 5),
        p3: Point::new(5, 0),
        color: RED,
        draw_method: DrawMethod::Fill,
    };
    draw_triangle(&t, &cam, &mut buf, w, h);
    // The flat edge is at the top, so only the lower half-triangle scan
    // runs, over screen rows [3, 8).
    let spans: [(i32, i32, i32); 5] = [(3, 8, 8), (4, 7, 9), (5, 6, 10), (6, 5, 11), (7, 4, 12)];
    let mut total = 0;
    for (sy, lo, hi) in spans {
        for sx in lo..hi {
            assert_eq!(cell(&buf, w, h, sx, sy), RED);
        }
        total += hi - lo;
    }
    assert_eq!(painted(&buf), total as usize);
}

#[test]
fn wireframe_equals_three_lines() {
    let (w, h) = (16, 16);
    let cam = Point::new(1, -2);
    let p1 = Point::new(1, 1);
    let p2 = Point::new(9, 2);
    let p3 = Point::new(7, 8);
    let t = Triangle { p1, p2, p3, color: RED, draw_method: DrawMethod::WireFrame };
    let mut buf1 = vec![0u32; 256];
    draw_triangle(&t, &cam, &mut buf1, w, h);
    let mut buf2 = vec![0u32; 256];
    draw_line(&p1, &p2, &cam, &mut buf2, RED, w, h);
    draw_line(&p2, &p3, &cam, &mut buf2, RED, w, h);
    draw_line(&p3, &p1, &cam, &mut buf2, RED, w, h);
    assert_eq!(buf1, buf2);
}

#[test]
fn draw_leaves_other_pixels_untouched() {
    let (w, h) = (16, 16);
    let mut buf = vec![7u32; 256];
    let cam = Point::new(0, 0);
    draw_line(&Point::new(2, 2), &Point::new(2, 5), &cam, &mut buf, RED, w, h);
    let mut changed = 0;
    for sy in 2..5 {
        assert_eq!(cell(&buf, w, h, 2, sy), RED);
        changed += 1;
    }
    let untouched = buf.iter().filter(|&&c| c == 7).count();
    assert_eq!(untouched + changed, 256);
}
