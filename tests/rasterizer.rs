use polygons::{Color, DrawError, Framebuffer, Point};

fn pts(v: &[(i32, i32)]) -> Vec<Point> {
    v.iter().map(|&(x, y)| Point::new(x, y)).collect()
}

fn buffer(w: u32, h: u32) -> Framebuffer {
    Framebuffer::new(w, h, Color::black()).unwrap()
}

fn painted(fb: &Framebuffer, c: Color) -> Vec<(u32, u32)> {
    let mut out = Vec::new();
    for y in 0..fb.height {
        for x in 0..fb.width {
            if fb.get_pixel(x, y) == Some(c) {
                out.push((x, y));
            }
        }
    }
    out
}

#[test]
fn new_fills_with_background() {
    let bg = Color::new(50, 50, 100, 255);
    let fb = Framebuffer::new(4, 3, bg).unwrap();
    assert_eq!(fb.color_buffer.len(), 12);
    assert!(fb.color_buffer.iter().all(|&c| c == bg));
    assert_eq!(fb.current_color, Color::white());
}

#[test]
fn new_rejects_zero_dimensions() {
    assert!(matches!(Framebuffer::new(0, 5, Color::black()), Err(DrawError::InvalidDimensions)));
    assert!(matches!(Framebuffer::new(5, 0, Color::black()), Err(DrawError::InvalidDimensions)));
}

#[test]
fn clear_restores_background_everywhere() {
    let mut fb = buffer(6, 5);
    fb.fill_polygon(&pts(&[(0, 0), (5, 0), (5, 4), (0, 4)])).unwrap();
    fb.draw_line(Point::new(0, 0), Point::new(5, 4));
    fb.clear();
    for y in 0..5 {
        for x in 0..6 {
            assert_eq!(fb.get_pixel(x, y), Some(Color::black()));
        }
    }
}

#[test]
fn set_pixel_out_of_bounds_changes_nothing() {
    let mut fb = buffer(4, 4);
    let before = fb.color_buffer.clone();
    fb.set_pixel(4, 0);
    fb.set_pixel(0, 4);
    fb.set_pixel(u32::MAX, u32::MAX);
    assert_eq!(fb.color_buffer, before);
    fb.set_pixel(3, 3);
    assert_eq!(fb.get_pixel(3, 3), Some(Color::white()));
    assert_eq!(fb.get_pixel(4, 3), None);
}

#[test]
fn set_current_color_applies_to_later_writes() {
    let mut fb = buffer(3, 3);
    fb.set_pixel(0, 0);
    let red = Color::new(255, 0, 0, 255);
    fb.set_current_color(red);
    assert_eq!(fb.get_pixel(0, 0), Some(Color::white()));
    fb.set_pixel(1, 1);
    assert_eq!(fb.get_pixel(1, 1), Some(red));
}

#[test]
fn fill_square_with_integer_corners() {
    let mut fb = buffer(10, 10);
    fb.fill_polygon(&pts(&[(2, 2), (2, 5), (5, 5), (5, 2)])).unwrap();
    let mut expected = Vec::new();
    // The bottom scanline meets no edge under the half-open rule.
    for y in 2..=4 {
        for x in 2..=5 {
            expected.push((x, y));
        }
    }
    assert_eq!(painted(&fb, Color::white()), expected);
}

#[test]
fn fill_concave_decagon_has_two_spans() {
    let mut fb = buffer(10, 10);
    let u = pts(&[(1, 1), (3, 1), (3, 6), (6, 6), (6, 1), (8, 1), (8, 8), (4, 8), (1, 8), (1, 5)]);
    fb.fill_polygon(&u).unwrap();
    let white = Some(Color::white());
    let row3: Vec<u32> = (0..10).filter(|&x| fb.get_pixel(x, 3) == white).collect();
    assert_eq!(row3, vec![1, 2, 3, 6, 7, 8]);
    let row7: Vec<u32> = (0..10).filter(|&x| fb.get_pixel(x, 7) == white).collect();
    assert_eq!(row7, vec![1, 2, 3, 4, 5, 6, 7, 8]);
}

#[test]
fn outline_of_triangle_has_no_gaps() {
    let mut fb = buffer(10, 10);
    fb.draw_polygon(&pts(&[(1, 1), (8, 3), (4, 8)])).unwrap();
    let on = |x: u32, y: u32| fb.get_pixel(x, y) == Some(Color::white());
    for (x, y) in [(1, 1), (8, 3), (4, 8)] {
        assert!(on(x, y));
    }
    for x in 1..=8 {
        assert!((1..=3).any(|y| on(x, y)), "column {x} of the first edge");
    }
    for y in 3..=8 {
        assert!((4..=8).any(|x| on(x, y)), "row {y} of the second edge");
    }
    for y in 1..=8 {
        assert!((1..=4).any(|x| on(x, y)), "row {y} of the third edge");
    }
}

#[test]
fn fill_twice_equals_fill_once() {
    let poly = pts(&[(1, 1), (8, 2), (6, 7), (2, 8), (4, 4)]);
    let mut once = buffer(10, 10);
    once.fill_polygon(&poly).unwrap();
    let mut twice = buffer(10, 10);
    twice.fill_polygon(&poly).unwrap();
    twice.fill_polygon(&poly).unwrap();
    assert_eq!(once.color_buffer, twice.color_buffer);
}

#[test]
fn reversed_winding_fills_the_same_pixels() {
    let poly = pts(&[(1, 2), (7, 1), (9, 6), (3, 9)]);
    let mut rev = poly.clone();
    rev.reverse();
    let mut a = buffer(10, 10);
    a.fill_polygon(&poly).unwrap();
    let mut b = buffer(10, 10);
    b.fill_polygon(&rev).unwrap();
    assert_eq!(a.color_buffer, b.color_buffer);
    assert!(!painted(&a, Color::white()).is_empty());
}

#[test]
fn triangle_scene_on_black() {
    let mut fb = buffer(10, 10);
    fb.set_current_color(Color::white());
    fb.fill_polygon(&pts(&[(1, 1), (1, 8), (8, 1)])).unwrap();
    assert_eq!(fb.get_pixel(2, 2), Some(Color::white()));
    assert_eq!(fb.get_pixel(9, 9), Some(Color::black()));
}

#[test]
fn fill_rejects_fewer_than_three_vertices() {
    let mut fb = buffer(5, 5);
    let before = fb.color_buffer.clone();
    assert_eq!(fb.fill_polygon(&pts(&[(0, 0), (4, 4)])), Err(DrawError::DegeneratePolygon));
    assert_eq!(fb.fill_polygon(&[]), Err(DrawError::DegeneratePolygon));
    assert_eq!(fb.color_buffer, before);
}

#[test]
fn outline_rejects_fewer_than_two_vertices() {
    let mut fb = buffer(5, 5);
    let before = fb.color_buffer.clone();
    assert_eq!(fb.draw_polygon(&pts(&[(1, 1)])), Err(DrawError::DegeneratePolygon));
    assert_eq!(fb.draw_polygon(&[]), Err(DrawError::DegeneratePolygon));
    assert_eq!(fb.color_buffer, before);
}

#[test]
fn polygon_outside_buffer_fills_nothing() {
    let mut fb = buffer(5, 5);
    fb.fill_polygon(&pts(&[(10, 10), (20, 10), (15, 20)])).unwrap();
    fb.fill_polygon(&pts(&[(-10, -10), (-2, -10), (-5, -1)])).unwrap();
    assert!(painted(&fb, Color::white()).is_empty());
}

#[test]
fn horizontal_polygon_fills_nothing() {
    let mut fb = buffer(5, 5);
    fb.fill_polygon(&pts(&[(0, 2), (2, 2), (4, 2)])).unwrap();
    assert!(painted(&fb, Color::white()).is_empty());
}

#[test]
fn fill_clips_to_the_grid() {
    let mut fb = buffer(4, 4);
    fb.fill_polygon(&pts(&[(-5, -5), (10, -5), (10, 10), (-5, 10)])).unwrap();
    assert_eq!(painted(&fb, Color::white()).len(), 16);
}

#[test]
fn fill_with_fractional_crossings() {
    let white = Some(Color::white());
    // Scanline 1 meets the slanted edge at x = 1.5: the span ends at column 1.
    let mut left = buffer(4, 3);
    left.fill_polygon(&pts(&[(0, 0), (3, 2), (0, 2)])).unwrap();
    let row1: Vec<u32> = (0..4).filter(|&x| left.get_pixel(x, 1) == white).collect();
    assert_eq!(row1, vec![0, 1]);
    // Here the span starts at x = 1.5, so at column 2.
    let mut right = buffer(4, 3);
    right.fill_polygon(&pts(&[(3, 0), (3, 2), (0, 2)])).unwrap();
    let row1: Vec<u32> = (0..4).filter(|&x| right.get_pixel(x, 1) == white).collect();
    assert_eq!(row1, vec![2, 3]);
    assert!((0..4).all(|x| right.get_pixel(x, 2) != white));
}

#[test]
fn line_rounds_to_nearest_pixel() {
    let mut fb = buffer(6, 4);
    fb.draw_line(Point::new(0, 0), Point::new(4, 2));
    assert_eq!(painted(&fb, Color::white()), vec![(0, 0), (1, 1), (2, 1), (3, 2), (4, 2)]);
}

#[test]
fn zero_length_line_is_one_pixel() {
    let mut fb = buffer(4, 4);
    fb.draw_line(Point::new(2, 1), Point::new(2, 1));
    assert_eq!(painted(&fb, Color::white()), vec![(2, 1)]);
}

#[test]
fn vertical_and_horizontal_lines() {
    let mut fb = buffer(5, 5);
    fb.draw_line(Point::new(1, 4), Point::new(1, 0));
    fb.draw_line(Point::new(4, 2), Point::new(2, 2));
    assert_eq!(
        painted(&fb, Color::white()),
        vec![(1, 0), (1, 1), (1, 2), (2, 2), (3, 2), (4, 2), (1, 3), (1, 4)]
    );
}

#[test]
fn line_leaving_the_grid_is_clipped() {
    let mut fb = buffer(3, 3);
    fb.draw_line(Point::new(-2, 1), Point::new(5, 1));
    assert_eq!(painted(&fb, Color::white()), vec![(0, 1), (1, 1), (2, 1)]);
}
