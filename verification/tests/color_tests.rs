use rasterizer::color::Color;

#[test]
fn test_color_creation() {
    let color = Color::new(255, 150, 0);
    assert_eq!(color.to_hex(), 0xFF9600);
    let color_from_hex = Color::from_hex(0xFF9600);
    assert_eq!(color_from_hex, color);
}

// Scales each channel by `factor`, held to the range of a channel.
fn multiply_intensity(color: Color, factor: f32) -> Color {
    Color::new(
        (color.r as f32 * factor).min(255.0).max(0.0) as u8,
        (color.g as f32 * factor).min(255.0).max(0.0) as u8,
        (color.b as f32 * factor).min(255.0).max(0.0) as u8,
    )
}

#[test]
fn test_color_operations() {
    let color1 = Color::new(200, 100, 50);
    let color2 = Color::new(55, 155, 205);
    let added_color = color1.saturating_add(color2);
    assert_eq!(added_color, Color::new(255, 255, 255)); // Clamped to 255

    let multiplied_color = multiply_intensity(color1, 0.5);
    assert_eq!(multiplied_color, Color::new(100, 50, 25));
}

#[test]
fn test_color_saturating_add_exact() {
    let sum = Color::new(1, 2, 3).saturating_add(Color::new(10, 20, 30));
    assert_eq!(sum, Color::new(11, 22, 33));
    let edge = Color::new(255, 0, 254).saturating_add(Color::new(1, 0, 1));
    assert_eq!(edge, Color::new(255, 0, 255));
}

#[test]
fn test_color_saturating_sub() {
    let diff = Color::new(200, 100, 50).saturating_sub(Color::new(55, 155, 50));
    assert_eq!(diff, Color::new(145, 0, 0));
    let zero = Color::new(0, 0, 0).saturating_sub(Color::new(1, 2, 3));
    assert_eq!(zero, Color::new(0, 0, 0));
}

#[test]
fn test_color_from_hex_channels() {
    let c = Color::from_hex(0x123456);
    assert_eq!(c.r, 0x12);
    assert_eq!(c.g, 0x34);
    assert_eq!(c.b, 0x56);
}

#[test]
fn test_color_from_hex_ignores_high_byte() {
    assert_eq!(Color::from_hex(0xAB123456), Color::new(0x12, 0x34, 0x56));
    assert_eq!(Color::from_hex(0xAB123456).to_hex(), 0x123456);
}

#[test]
fn test_color_hex_round_trip() {
    for &(r, g, b) in &[(0u8, 0u8, 0u8), (255, 255, 255), (1, 2, 3), (128, 0, 255)] {
        let c = Color::new(r, g, b);
        assert_eq!(Color::from_hex(c.to_hex()), c);
    }
    assert_eq!(Color::new(0, 0, 1).to_hex(), 1);
    assert_eq!(Color::new(0, 1, 0).to_hex(), 0x100);
    assert_eq!(Color::new(1, 0, 0).to_hex(), 0x10000);
}
