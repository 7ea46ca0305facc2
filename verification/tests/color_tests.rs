use bog_engine::color::Color;
use bog_engine::utils::Pixel;

#[test]
fn hex_with_six_digits_gets_an_opaque_alpha() {
    assert_eq!(Color::hex_to_raw("#C2B280"), 0xC2B280FF);
    assert_eq!(Color::hex_to_raw("C2B280"), 0xC2B280FF);
}

#[test]
fn hex_with_eight_digits_is_taken_as_it_is() {
    assert_eq!(Color::hex_to_raw("#12345678"), 0x12345678);
    assert_eq!(Color::hex_to_raw("abcdef01"), 0xABCDEF01);
}

#[test]
fn hex_with_three_digits_doubles_each() {
    assert_eq!(Color::hex_to_raw("#FFF"), 0xFFFFFFFF);
    assert_eq!(Color::hex_to_raw("#1a2"), 0x11AA22FF);
}

#[test]
fn unreadable_hex_is_opaque_black() {
    assert_eq!(Color::hex_to_raw(""), 0x000000FF);
    assert_eq!(Color::hex_to_raw("#"), 0x000000FF);
    assert_eq!(Color::hex_to_raw("#12"), 0x000000FF);
    assert_eq!(Color::hex_to_raw("#1234567"), 0x000000FF);
    assert_eq!(Color::hex_to_raw("#GGGGGG"), 0x000000FF);
    assert_eq!(Color::hex_to_raw("##FFFFF"), 0x000000FF);
    assert_eq!(Color::hex_to_raw("#ééé"), 0x000000FF);
}

#[test]
fn a_leading_plus_counts_as_part_of_the_number() {
    assert_eq!(Color::hex_to_raw("#+12345"), 0x012345FF);
    assert_eq!(Color::hex_to_raw("+1234567"), 0x01234567);
    assert_eq!(Color::hex_to_raw("#+12"), 0x000000FF);
}

#[test]
fn hex_to_color_unpacks_the_channels() {
    let c = Color::hex_to_color("#C2B280");
    assert_eq!((c.r, c.g, c.b, c.a), (0xC2, 0xB2, 0x80, 0xFF));
    let d = Color::from_hex("#0E0E11");
    assert_eq!((d.r, d.g, d.b, d.a), (0x0E, 0x0E, 0x11, 0xFF));
}

#[test]
fn raw_and_color_convert_both_ways() {
    let c = Color::raw_to_color(0x11223344);
    assert_eq!(c, Color::from_rgba(0x11, 0x22, 0x33, 0x44));
    assert_eq!(Color::color_to_raw(&c), 0x11223344);
    for raw in [0u32, 1, 0xFF, 0xFF00FF00, 0xDEADBEEF, u32::MAX] {
        assert_eq!(Color::color_to_raw(&Color::raw_to_color(raw)), raw);
    }
}

#[test]
fn color_to_hex_writes_upper_case_with_alpha() {
    let c = Color::from_rgba(0xC2, 0xB2, 0x80, 0xFF);
    assert_eq!(Color::color_to_hex(&c), "#C2B280FF");
    assert_eq!(c.to_hex(), "#C2B280FF");
    assert_eq!(Color::from_rgba(0, 1, 10, 171).to_hex(), "#00010AAB");
}

#[test]
fn hex_text_of_a_color_reads_back_as_the_color() {
    for raw in [0u32, 0x01020304, 0xC2B280FF, 0xFFFFFFFF, 0x0A0B0C0D] {
        let c = Color::raw_to_color(raw);
        assert_eq!(Color::hex_to_raw(&c.to_hex()), raw);
    }
}

#[test]
fn lerp_at_the_ends_gives_the_ends() {
    let a = Color::from_rgba(194, 178, 128, 255);
    let b = Color::from_rgba(168, 144, 96, 255);
    assert_eq!(Color::lerp_color(&a, &b, 0), a);
    assert_eq!(Color::lerp_color(&a, &b, 5), b);
}

#[test]
fn lerp_rounds_each_channel_to_the_nearest() {
    let a = Color::from_rgba(194, 178, 128, 255);
    let b = Color::from_rgba(168, 144, 96, 255);
    // 194 - 26 * 0.4 = 183.6, 178 - 34 * 0.4 = 164.4, 128 - 32 * 0.4 = 115.2
    assert_eq!(Color::lerp_color(&a, &b, 2), Color::from_rgba(184, 164, 115, 255));
    // 0 + 1 * 0.6 = 0.6, 0 + 2 * 0.2 = 0.4, halves go up: 1 * 0.5 is no fifth, so 5 * 0.1
    assert_eq!(
        Color::lerp_color(&Color::from_rgba(0, 0, 0, 0), &Color::from_rgba(1, 2, 0, 0), 3),
        Color::from_rgba(1, 1, 0, 0)
    );
    assert_eq!(
        Color::lerp_color(&Color::from_rgba(0, 0, 0, 0), &Color::from_rgba(0, 2, 0, 0), 1),
        Color::from_rgba(0, 0, 0, 0)
    );
}

#[test]
fn lerp_beyond_the_end_is_kept_within_a_channel() {
    let a = Color::from_rgba(10, 200, 0, 255);
    let b = Color::from_rgba(0, 250, 100, 0);
    // 10 - 10 * 2 < 0, 200 + 50 * 2 > 255, 0 + 100 * 2 = 200, 255 - 255 * 2 < 0
    assert_eq!(Color::lerp_color(&a, &b, 10), Color::from_rgba(0, 255, 200, 0));
}

#[test]
fn lerp_hex_reads_both_ends() {
    assert_eq!(Color::lerp_hex("#C2B280", "#A89060", 2), Color::from_rgba(184, 164, 115, 255));
    assert_eq!(Color::lerp_hex("#000", "nonsense", 4), Color::from_rgba(0, 0, 0, 255));
}

#[test]
fn pixel_from_raw_unpacks_the_channels() {
    let p = Pixel::from_raw(0x11223344, 7);
    assert_eq!((p.r, p.g, p.b, p.a, p.index), (0x11, 0x22, 0x33, 0x44, 7));
    let q = Pixel::from_rgba(1, 2, 3, 4, 5);
    assert_eq!((q.r, q.g, q.b, q.a, q.index), (1, 2, 3, 4, 5));
}
