use rasterizer::color::Color;

#[test]
fn test_new_rgb() {
    let color = Color::new(300, -20, 100);
    assert_eq!(
        color,
        Color {
            r: 255,
            g: 0,
            b: 100
        }
    );
}

#[test]
fn test_from_hex() {
    let color = Color::from_hex(0xFF00FF);
    assert_eq!(
        color,
        Color {
            r: 255,
            g: 0,
            b: 255
        }
    );
}

#[test]
fn test_to_hex() {
    let color = Color::new(255, 0, 255);
    assert_eq!(color.to_hex(), 0xFF00FF);
}

#[test]
fn test_add_colors() {
    let color1 = Color::new(200, 100, 50);
    let color2 = Color::new(100, 100, 100);
    let result = color1.add_saturating(color2);
    assert_eq!(
        result,
        Color {
            r: 255,
            g: 200,
            b: 150
        }
    );
}

#[test]
fn test_mul_color() {
    let color = Color::new(100, 150, 200);
    let result = color.scale_clamped(3, 2);
    assert_eq!(
        result,
        Color {
            r: 150,
            g: 225,
            b: 255
        }
    );
}

#[test]
fn test_hex_round_trip_various() {
    for hex in [0x000000u32, 0xFFFFFF, 0x123456, 0xA0B0C0] {
        let c = Color::from_hex(hex);
        assert_eq!(c.to_hex(), hex);
        assert_eq!(Color::from_hex(c.to_hex()), c);
    }
}

#[test]
fn test_from_hex_ignores_high_byte() {
    assert_eq!(Color::from_hex(0xFF123456), Color::from_hex(0x123456));
}

#[test]
fn test_add_saturates_at_max() {
    let c = Color::new(255, 255, 255).add_saturating(Color::new(255, 255, 255));
    assert_eq!(c, Color::new(255, 255, 255));
}

#[test]
fn test_scale_truncates_toward_zero() {
    // 100 * 1 / 3 = 33.33... truncates to 33
    let c = Color::new(100, 7, 0).scale_clamped(1, 3);
    assert_eq!(
        c,
        Color {
            r: 33,
            g: 2,
            b: 0
        }
    );
}
