use byoh_core::calculator::DisplayRow;
use byoh_core::color::OverlayColor;
use byoh_core::defs::RenderStyle;
use byoh_core::layout::{blink_on, make_text_entries, window_style, RowWidths, TextCache};
use byoh_core::single::Px;
use byoh_core::surface::AlphaMode::{Auto, Inherit, Opaque, PostMultiplied, PreMultiplied};
use byoh_core::surface::{aligned_bpr, fits, pick_alpha_mode, pick_format, resized, target_size, unpad_rows};

fn px(x: f32) -> Px {
    Px { bits: x.to_bits() }
}

fn row(label: &str, value: &str, unit: &str, color: &str) -> DisplayRow {
    DisplayRow {
        label: label.to_string(),
        value_str: value.to_string(),
        unit: unit.to_string(),
        color: color.to_string(),
        style: None,
    }
}

fn widths(label: f32, value: f32, unit: f32) -> RowWidths {
    RowWidths { label: px(label), value: px(value), unit: px(unit) }
}

#[test]
fn rows_are_laid_out_in_columns() {
    let rows = vec![row("ALT", "4936", "m", "value"), row("SPEED", "9", "", "warn")];
    let w = vec![widths(57.5, 76.25, 19.0), widths(95.75, 19.5, 0.0)];
    let win = window_style(None);
    let l = make_text_entries(&win, &rows, true, &w);
    assert_eq!(l.entries.len(), 10);
    let at = |i: usize| {
        let e = &l.entries[i];
        (e.text.as_str(), f32::from_bits(e.x.bits), f32::from_bits(e.y.bits), e.color)
    };
    let shadow = OverlayColor([0, 0, 0, 160]);
    let white = OverlayColor([255, 255, 255, 255]);
    let yellow = OverlayColor([220, 220, 60, 255]);
    assert_eq!(at(0), ("ALT", 10.0, 12.0, shadow));
    assert_eq!(at(1), ("ALT", 8.0, 10.0, white));
    // 8 + 95.75 + 12 and the widest value
    assert_eq!(at(3), ("4936", 115.75, 10.0, white));
    assert_eq!(at(5), ("m", 115.75 + 76.25 + 12.0, 10.0, OverlayColor([192, 192, 192, 255])));
    assert_eq!(at(7), ("SPEED", 8.0, 50.0, yellow));
    assert_eq!(at(9), ("9", 115.75 + (76.25 - 19.5), 50.0, yellow));
    assert_eq!(l.width, (8.0f32 + 95.75 + 12.0 + 76.25 + (12.0 + 19.0) + 8.0).ceil() as u32);
    assert_eq!(l.height, 100);
}

#[test]
fn critical_rows_blink_and_empty_windows_have_a_size() {
    let rows = vec![row("G", "9.1", "g", "crit")];
    let w = vec![widths(10.0, 20.0, 5.0)];
    let win = window_style(None);
    assert_eq!(make_text_entries(&win, &rows, true, &w).entries.len(), 6);
    assert_eq!(make_text_entries(&win, &rows, false, &w).entries.len(), 2);
    let empty = make_text_entries(&win, &vec![], false, &vec![]);
    assert_eq!((empty.entries.len(), empty.width, empty.height), (0, 28, 60));
}

#[test]
fn blinking_has_two_periods_in_a_second() {
    let on: Vec<bool> = (0..5).map(|i| blink_on(i * 250)).collect();
    assert_eq!(on, [true, false, true, false, true]);
    assert!(blink_on(249) && !blink_on(250));
}

#[test]
fn texts_are_kept_while_nothing_changes() {
    let rows = vec![row("A", "1", "m", "value")];
    let own = RenderStyle { font_size: Some(px(20.0)), ..Default::default() };
    let mut cache: TextCache<u8> = TextCache::new();
    assert!(cache.is_valid(&vec![], false, None));
    assert!(!cache.is_valid(&rows, false, Some(own)));
    cache.rebuild(&rows, false, Some(own), vec![1, 2], 30, 40);
    assert!(cache.is_valid(&rows, false, Some(own)));
    assert!(!cache.is_valid(&rows, true, Some(own)));
    assert!(!cache.is_valid(&rows, false, None));
    let changed = vec![row("A", "2", "m", "value")];
    assert!(!cache.is_valid(&changed, false, Some(own)));
    let odd = RenderStyle { pad_x: Some(px(f32::NAN)), ..Default::default() };
    cache.rebuild(&rows, false, Some(odd), vec![], 1, 1);
    assert!(!cache.is_valid(&rows, false, Some(odd)));
    let zero = RenderStyle { pad_x: Some(px(0.0)), ..Default::default() };
    let minus = RenderStyle { pad_x: Some(px(-0.0)), ..Default::default() };
    assert!(zero.equals(&minus));
}

#[test]
fn buffers_are_padded_and_unpadded() {
    assert_eq!(aligned_bpr(1), 256);
    assert_eq!(aligned_bpr(64), 256);
    assert_eq!(aligned_bpr(65), 512);
    let t = target_size(0, 3);
    assert_eq!((t.width, t.height, t.bytes_per_row, t.buffer_size), (1, 3, 256, 768));
    assert!(fits(0, 0) && fits(1920, 1080) && !fits(u32::MAX, 1) && !fits(16_384, 65_536));
    assert!(fits(16_384, 65_535));
    let mapped: Vec<u8> = (0..20).collect();
    assert_eq!(unpad_rows(&mapped, 4, 8, 3), [0, 1, 2, 3, 8, 9, 10, 11, 16, 17, 18, 19]);
    assert!(unpad_rows(&mapped, 4, 8, 0).is_empty());
}

#[test]
fn surfaces_prefer_transparency() {
    assert_eq!(pick_alpha_mode(&vec![Opaque, PostMultiplied, PreMultiplied]), PreMultiplied);
    assert_eq!(pick_alpha_mode(&vec![Inherit, PostMultiplied]), PostMultiplied);
    assert_eq!(pick_alpha_mode(&vec![Opaque, Inherit]), Inherit);
    assert_eq!(pick_alpha_mode(&vec![Opaque]), Auto);
    assert_eq!(pick_format(&vec![false, true, true]), 1);
    assert_eq!(pick_format(&vec![false, false]), 0);
    assert_eq!(resized(0, 5), None);
    assert_eq!(resized(4, 5), Some((4, 5)));
}

#[test]
fn values_follow_the_colour_of_labels() {
    let red = OverlayColor([9, 8, 7, 255]);
    let green = OverlayColor([1, 2, 3, 255]);
    let base = window_style(None);
    let s = RenderStyle { c_label: Some(red), ..Default::default() };
    assert_eq!(base.apply(&s).token_to_color("value"), red);
    assert_eq!(base.apply_colors(&s).token_to_color("unit"), red);
    let both = RenderStyle { c_label: Some(red), c_value: Some(green), ..Default::default() };
    assert_eq!(base.apply(&both).token_to_color("value"), green);
    let none = RenderStyle { c_unit: Some(red), ..Default::default() };
    assert_eq!(base.apply(&none).token_to_color("value"), OverlayColor([255, 255, 255, 255]));
}
