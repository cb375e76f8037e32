use byoh_core::color::{parse_color, ColorError, NumberFault, OverlayColor};
use byoh_core::defs::{AppConfig, RenderStyle};
use byoh_core::single::Px;
use byoh_core::style::ResolvedStyle;

/// The text in a JSON string.
fn unquoted(json: &str) -> String {
    serde_json::from_str(json).unwrap()
}

#[test]
fn test_overlay_color_serde_hex_rgb() {
    let c = parse_color(&unquoted(r##""#FF8040""##)).unwrap();
    assert_eq!(c, OverlayColor([0xFF, 0x80, 0x40, 0xFF]));
    let s = serde_json::to_string(&c.to_text()).unwrap();
    assert_eq!(s, r##""#FF8040""##);
}

#[test]
fn test_overlay_color_serde_hex_rgba() {
    let c = parse_color(&unquoted(r##""#FF8040A0""##)).unwrap();
    assert_eq!(c, OverlayColor([0xFF, 0x80, 0x40, 0xA0]));
    let s = serde_json::to_string(&c.to_text()).unwrap();
    assert_eq!(s, r##""#FF8040A0""##);
}

fn from_list(json: &str) -> OverlayColor {
    let v: Vec<u8> = serde_json::from_str(json).unwrap();
    OverlayColor::of_components(
        v.first().copied(),
        v.get(1).copied(),
        v.get(2).copied(),
        v.get(3).copied(),
    )
    .unwrap()
}

#[test]
fn test_overlay_color_serde_array_rgb() {
    assert_eq!(from_list("[255, 128, 64]"), OverlayColor([255, 128, 64, 255]));
}

#[test]
fn test_overlay_color_serde_array_rgba() {
    assert_eq!(from_list("[255, 128, 64, 160]"), OverlayColor([255, 128, 64, 160]));
}

#[test]
fn test_overlay_color_serde_rgb_fn() {
    let c = parse_color(&unquoted(r#""rgb(255,128,64)""#)).unwrap();
    assert_eq!(c, OverlayColor([255, 128, 64, 255]));
}

#[test]
fn test_overlay_color_serde_rgba_fn() {
    let c = parse_color(&unquoted(r#""rgba(255, 128, 64, 160)""#)).unwrap();
    assert_eq!(c, OverlayColor([255, 128, 64, 160]));
}

#[test]
fn every_colour_is_read_back() {
    for i in 0..=255u8 {
        let c = OverlayColor::rgba(i, i ^ 0x5a, 255 - i, i.wrapping_mul(7));
        assert_eq!(parse_color(&c.to_text()), Ok(c));
        let d = OverlayColor::rgb(i, 0, i);
        assert_eq!(parse_color(&d.to_text()), Ok(d));
        assert_eq!(d.to_rgba(), [i, 0, i, 255]);
    }
}

#[test]
fn colour_errors() {
    assert_eq!(parse_color("#12345"), Err(ColorError::HexLength(5)));
    assert_eq!(parse_color("#zz0000"), Err(ColorError::Component(NumberFault::NotDigit)));
    assert_eq!(parse_color("rgb(1,2)"), Err(ColorError::RgbParts(2)));
    assert_eq!(parse_color("rgba(1,2,3)"), Err(ColorError::RgbaParts(3)));
    assert_eq!(parse_color("rgb(1,2,256)"), Err(ColorError::Component(NumberFault::TooLarge)));
    assert_eq!(parse_color("rgb(1,,2)"), Err(ColorError::Component(NumberFault::Empty)));
    assert_eq!(parse_color(" red "), Err(ColorError::Unknown("red".to_string())));
    assert_eq!(
        OverlayColor::of_components(Some(1), None, Some(2), None),
        Err(ColorError::Missing(1))
    );
    // a plus sign is part of a number, and two bytes may be one character
    assert_eq!(parse_color("#+1+2+3"), Ok(OverlayColor([1, 2, 3, 255])));
    assert_eq!(parse_color("#éaaaa"), Err(ColorError::Component(NumberFault::NotDigit)));
    assert_eq!(parse_color("#€€"), Err(ColorError::Component(NumberFault::NotDigit)));
    assert_eq!(parse_color("#00€000"), Err(ColorError::Component(NumberFault::NotDigit)));
    assert_eq!(parse_color("#zz€a"), Err(ColorError::Component(NumberFault::NotDigit)));
    assert_eq!(parse_color("#€"), Err(ColorError::HexLength(3)));
}

#[test]
fn styles_resolve_in_layers() {
    let base = ResolvedStyle::defaults();
    assert_eq!(f32::from_bits(base.font_size.bits), 32.0);
    assert_eq!(f32::from_bits(base.line_height.bits), 40.0);
    assert_eq!(f32::from_bits(base.col_gap.bits), 12.0);
    let own = RenderStyle {
        font_size: Some(Px { bits: 24.0f32.to_bits() }),
        c_warn: Some(OverlayColor([255, 200, 0, 255])),
        ..Default::default()
    };
    let win = base.apply(&own);
    assert_eq!(f32::from_bits(win.font_size.bits), 24.0);
    assert_eq!(win.token_to_color("warn"), OverlayColor([255, 200, 0, 255]));
    let row = base.apply_colors(&own);
    assert_eq!(row.font_size, base.font_size);
    assert_eq!(row.token_to_color("warn"), OverlayColor([255, 200, 0, 255]));
    assert_eq!(row.token_to_color("crit"), OverlayColor([220, 60, 60, 255]));
    assert_eq!(row.token_to_color("unit"), row.c_label);
    assert!(own.equals(&own));
    assert!(!own.equals(&RenderStyle::default()));
}

#[test]
fn nothing_is_shown_by_default() {
    let c = AppConfig::default();
    assert!(!c.always_show && !c.show_when_byoh_foreground && !c.only_during_mission);
}
