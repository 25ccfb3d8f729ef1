use rasterizer::LinearFunction;
use rasterizer::Point;

#[test]
fn point_new_sets_fields() {
    let p = Point::new(-4, 17);
    assert_eq!(p.x, -4);
    assert_eq!(p.y, 17);
}

#[test]
fn world_to_screen_subtracts_camera() {
    let p = rasterizer::raster::world_to_screen(&Point::new(10, 20), &Point::new(3, 4));
    assert_eq!(p.x, 7);
    assert_eq!(p.y, 16);
}

#[test]
fn order_range_orders_endpoints() {
    let r = rasterizer::raster::order_range(5, 2);
    assert_eq!(r.start, 2);
    assert_eq!(r.end, 5);
    let r2 = rasterizer::raster::order_range(2, 5);
    assert_eq!(r2.start, 2);
    assert_eq!(r2.end, 5);
    let r3 = rasterizer::raster::order_range(4, 4);
    assert!(r3.is_empty());
}

#[test]
fn from_points_vertical_variant() {
    let l = LinearFunction::from_points(&Point::new(3, 1), &Point::new(3, 9));
    assert!(matches!(l, LinearFunction::Vertical { x: 3 }));
}

#[test]
fn vertical_solves_x_to_fixed_x_for_any_y() {
    let l = LinearFunction::from_points(&Point::new(3, 1), &Point::new(3, 9));
    assert_eq!(l.solve_x(0), 3);
    assert_eq!(l.solve_x(100), 3);
    assert_eq!(l.solve_x(-51), 3);
}

#[test]
fn solve_y_roundtrips_at_endpoints() {
    let pairs = [
        (Point::new(0, 0), Point::new(10, 5)),
        (Point::new(-7, 3), Point::new(4, -9)),
        (Point::new(2, 2), Point::new(3, 100)),
        (Point::new(-1, -1), Point::new(1, 1)),
    ];
    for (p1, p2) in pairs {
        let l = LinearFunction::from_points(&p1, &p2);
        assert_eq!(l.solve_y(p1.x), p1.y);
        assert_eq!(l.solve_y(p2.x), p2.y);
    }
}

#[test]
fn solve_y_truncates_toward_zero() {
    // Slope 10/3: the exact values 10/3 and -10/3 truncate to 3 and -3.
    let l = LinearFunction::from_points(&Point::new(0, 0), &Point::new(3, 10));
    assert_eq!(l.solve_y(1), 3);
    assert_eq!(l.solve_y(2), 6);
    assert_eq!(l.solve_y(3), 10);
    assert_eq!(l.solve_y(-1), -3);
    assert_eq!(l.solve_y(-2), -6);
}

#[test]
fn solve_x_inverts_the_slope() {
    // Slope 1/2: x(y) == 2 * y exactly.
    let l = LinearFunction::from_points(&Point::new(0, 0), &Point::new(10, 5));
    assert_eq!(l.solve_x(1), 2);
    assert_eq!(l.solve_x(2), 4);
    assert_eq!(l.solve_x(3), 6);
    assert_eq!(l.solve_x(-1), -2);
}

#[test]
fn solve_x_truncates_toward_zero() {
    // Slope 3 through the origin: x(4) is exactly 4/3, truncated to 1,
    // and x(-4) is -4/3, truncated to -1.
    let l = LinearFunction::from_points(&Point::new(0, 0), &Point::new(2, 6));
    assert_eq!(l.solve_x(4), 1);
    assert_eq!(l.solve_x(-4), -1);
}
