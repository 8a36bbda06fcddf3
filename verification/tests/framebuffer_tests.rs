use rasterizer::color::Color;
use rasterizer::framebuffer::Framebuffer;

#[test]
fn test_framebuffer_new() {
    let fb = Framebuffer::new(800, 600);
    assert_eq!(fb.width, 800);
    assert_eq!(fb.height, 600);
    assert_eq!(fb.background_color, Color::new(0, 0, 0));
    assert_eq!(fb.current_color, Color::new(255, 255, 255));
    assert_eq!(fb.get_pixel(0, 0), Some(Color::new(0, 0, 0)));
}

#[test]
fn test_framebuffer_clear() {
    let mut fb = Framebuffer::new(800, 600);
    fb.set_background_color(Color::new(255, 0, 0));
    fb.clear();
    assert_eq!(fb.get_pixel(100, 100), Some(Color::new(255, 0, 0)));
}

#[test]
fn test_framebuffer_point() {
    let mut fb = Framebuffer::new(800, 600);
    fb.set_current_color(Color::new(0, 255, 0));
    fb.point(200, 300);
    assert_eq!(fb.get_pixel(200, 300), Some(Color::new(0, 255, 0)));
}

#[test]
fn test_framebuffer_point_out_of_bounds() {
    let mut fb = Framebuffer::new(800, 600);
    fb.set_current_color(Color::new(0, 255, 0));
    fb.point(-100, 1000);
    assert_eq!(fb.get_pixel(-100, 1000), None);
}

#[test]
fn test_every_initial_pixel_black() {
    let fb = Framebuffer::new(16, 16);
    for y in 0..16 {
        for x in 0..16 {
            assert_eq!(fb.get_pixel(x, y), Some(Color::new(0, 0, 0)));
        }
    }
}

#[test]
fn test_clear_snapshots_background() {
    // clear paints the background color as it was at call time; changing
    // the background afterwards does not repaint anything
    let mut fb = Framebuffer::new(8, 8);
    fb.set_background_color(Color::new(255, 0, 0));
    fb.clear();
    fb.set_background_color(Color::new(0, 0, 255));
    assert_eq!(fb.get_pixel(3, 3), Some(Color::new(255, 0, 0)));
}

#[test]
fn test_set_pixel_bypasses_current_color() {
    let mut fb = Framebuffer::new(8, 8);
    fb.set_current_color(Color::new(0, 255, 0));
    fb.set_pixel(2, 2, Color::new(9, 8, 7));
    assert_eq!(fb.get_pixel(2, 2), Some(Color::new(9, 8, 7)));
    assert_eq!(fb.current_color, Color::new(0, 255, 0));
}

#[test]
fn test_draw_line_diagonal_exact() {
    // the 10x10 diagonal sets exactly the ten pixels (0,0)..(9,9)
    let mut fb = Framebuffer::new(10, 10);
    let c = Color::new(200, 10, 10);
    fb.draw_line(0, 0, 9, 9, c);
    for y in 0..10 {
        for x in 0..10 {
            let expected = if x == y { Some(c) } else { Some(Color::new(0, 0, 0)) };
            assert_eq!(fb.get_pixel(x, y), expected);
        }
    }
}

#[test]
fn test_draw_line_includes_endpoints() {
    let mut fb = Framebuffer::new(20, 20);
    let c = Color::new(1, 2, 3);
    fb.draw_line(2, 3, 17, 11, c);
    assert_eq!(fb.get_pixel(2, 3), Some(c));
    assert_eq!(fb.get_pixel(17, 11), Some(c));
}

#[test]
fn test_draw_line_horizontal_and_vertical() {
    let mut fb = Framebuffer::new(10, 10);
    let c = Color::new(5, 5, 5);
    fb.draw_line(1, 4, 8, 4, c);
    for x in 1..=8 {
        assert_eq!(fb.get_pixel(x, 4), Some(c));
    }
    let d = Color::new(6, 6, 6);
    fb.draw_line(2, 1, 2, 7, d);
    for y in 1..=7 {
        assert_eq!(fb.get_pixel(2, y), Some(d));
    }
}

#[test]
fn test_draw_line_clips_out_of_bounds() {
    let mut fb = Framebuffer::new(4, 4);
    fb.draw_line(-3, 1, 7, 1, Color::new(9, 9, 9));
    for x in 0..4 {
        assert_eq!(fb.get_pixel(x, 1), Some(Color::new(9, 9, 9)));
    }
    assert_eq!(fb.get_pixel(0, 0), Some(Color::new(0, 0, 0)));
}
