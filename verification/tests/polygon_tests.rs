use rasterizer::color::Color;
use rasterizer::framebuffer::Framebuffer;
use rasterizer::line::Vertex;

fn v(x: i32, y: i32) -> Vertex {
    Vertex::new(x, y, 0)
}

#[test]
fn test_fill_polygon_triangle_scanlines() {
    // vertices (0,0),(4,0),(0,4): the half-open [y1,y2) rule fills rows
    // 0..=3, each from x = 0 to x = 4 - y, and leaves row 4 empty
    let mut fb = Framebuffer::new(6, 6);
    let fill = Color::new(0, 200, 0);
    let verts = vec![v(0, 0), v(4, 0), v(0, 4)];
    fb.fill_polygon(&verts, fill);
    for y in 0..6 {
        for x in 0..6 {
            let inside = y <= 3 && x <= 4 - y;
            let expected = if inside { fill } else { Color::new(0, 0, 0) };
            assert_eq!(fb.get_pixel(x, y), Some(expected), "pixel ({}, {})", x, y);
        }
    }
    assert_eq!(fb.current_color, fill);
}

#[test]
fn test_fill_polygon_too_few_vertices_is_noop() {
    let mut fb = Framebuffer::new(6, 6);
    let before = fb.current_color;
    fb.fill_polygon(&vec![v(0, 0), v(5, 5)], Color::new(9, 9, 9));
    for y in 0..6 {
        for x in 0..6 {
            assert_eq!(fb.get_pixel(x, y), Some(Color::new(0, 0, 0)));
        }
    }
    assert_eq!(fb.current_color, before);
}

#[test]
fn test_draw_polygon_too_few_vertices_is_noop() {
    let mut fb = Framebuffer::new(6, 6);
    fb.draw_polygon(&vec![v(1, 1)], Color::new(1, 1, 1), Color::new(2, 2, 2));
    for y in 0..6 {
        for x in 0..6 {
            assert_eq!(fb.get_pixel(x, y), Some(Color::new(0, 0, 0)));
        }
    }
}

#[test]
fn test_line_method_sets_current_color() {
    let mut fb = Framebuffer::new(8, 8);
    let c = Color::new(7, 7, 7);
    fb.line(v(0, 0), v(3, 0), c);
    assert_eq!(fb.current_color, c);
    for x in 0..=3 {
        assert_eq!(fb.get_pixel(x, 0), Some(c));
    }
}

#[test]
fn test_draw_polygon_fill_overdraws_border() {
    // the square (0,0),(8,0),(8,8),(0,8) fills rows 0..=7 over x 0..=8,
    // repainting the border pixels on those scanlines with the fill color
    let mut fb = Framebuffer::new(10, 10);
    let border = Color::new(255, 255, 255);
    let fill = Color::new(0, 255, 0);
    let verts = vec![v(0, 0), v(8, 0), v(8, 8), v(0, 8)];
    fb.draw_polygon(&verts, border, fill);
    assert_eq!(fb.get_pixel(0, 0), Some(fill));
    assert_eq!(fb.get_pixel(4, 4), Some(fill));
    // the bottom edge row y = 8 is outside every half-open edge range, so
    // only the stroked border remains there
    assert_eq!(fb.get_pixel(4, 8), Some(border));
    assert_eq!(fb.get_pixel(9, 9), Some(Color::new(0, 0, 0)));
}

#[test]
fn test_draw_polygon_with_hole_composites_background() {
    let mut fb = Framebuffer::new(10, 10);
    let border = Color::new(255, 255, 255);
    let fill = Color::new(0, 255, 0);
    let background = Color::new(0, 0, 0);
    let outer = vec![v(0, 0), v(8, 0), v(8, 8), v(0, 8)];
    let hole = vec![v(3, 3), v(5, 3), v(5, 5), v(3, 5)];
    fb.draw_polygon_with_hole(&outer, &hole, border, fill, background);
    // inside the hole: repainted with the background color
    assert_eq!(fb.get_pixel(4, 4), Some(background));
    // inside the outer loop but outside the hole: fill color
    assert_eq!(fb.get_pixel(1, 1), Some(fill));
    assert_eq!(fb.get_pixel(7, 7), Some(fill));
}

#[test]
fn test_fill_polygon_even_odd_two_spans() {
    // a zigzag that gives scanline y = 1 four crossings: two filled spans
    // separated by a gap
    let mut fb = Framebuffer::new(12, 6);
    let fill = Color::new(200, 0, 200);
    // two triangles joined into one loop sharing nothing at y = 1:
    // (0,0),(3,4),(5,0) makes crossings near x=0..3 region; add a second
    // peak (6,0),(9,4),(11,0)? keep it one loop:
    let verts = vec![v(0, 0), v(3, 4), v(5, 0), v(6, 0), v(9, 4), v(11, 0)];
    fb.fill_polygon(&verts, fill);
    // the two peaks are filled on row 2, the valley between them is not
    assert!(fb.get_pixel(2, 2) == Some(fill) || fb.get_pixel(1, 2) == Some(fill));
    assert_eq!(fb.get_pixel(5, 3), Some(Color::new(0, 0, 0)));
}
