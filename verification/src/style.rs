//! Styles with nothing left open.
use vstd::arithmetic::power2::{lemma2_to64, pow2};
use vstd::prelude::*;

use crate::color::OverlayColor;
use crate::defs::RenderStyle;
use crate::single::{lemma_px_whole_number, px_value, Px};
use crate::text::same_text;

verus! {

/// A style of a window with every choice made.
#[derive(Clone, Copy, Debug)]
pub struct ResolvedStyle {
    pub font_size: Px,
    pub line_height: Px,
    pub pad_x: Px,
    pub pad_y: Px,
    pub col_gap: Px,
    pub c_label: OverlayColor,
    pub c_value: OverlayColor,
    pub c_unit: OverlayColor,
    pub c_warn: OverlayColor,
    pub c_crit: OverlayColor,
    pub c_good: OverlayColor,
    pub c_info: OverlayColor,
    pub c_shadow: OverlayColor,
}

/// `own`, or else `base`.
pub open spec fn or_length(own: Option<Px>, base: Px) -> Px {
    match own {
        Some(v) => v,
        None => base,
    }
}

/// `own`, or else `base`.
pub open spec fn or_color(own: Option<OverlayColor>, base: OverlayColor) -> OverlayColor {
    match own {
        Some(c) => c,
        None => base,
    }
}

/// `base` with the colours of `s`; the colour of values is that of labels where
/// `s` names none for values.
pub open spec fn colored(base: ResolvedStyle, s: RenderStyle) -> ResolvedStyle {
    ResolvedStyle {
        font_size: base.font_size,
        line_height: base.line_height,
        pad_x: base.pad_x,
        pad_y: base.pad_y,
        col_gap: base.col_gap,
        c_label: or_color(s.c_label, base.c_label),
        c_value: or_color(s.c_value, or_color(s.c_label, base.c_value)),
        c_unit: or_color(s.c_unit, base.c_unit),
        c_warn: or_color(s.c_warn, base.c_warn),
        c_crit: or_color(s.c_crit, base.c_crit),
        c_good: or_color(s.c_good, base.c_good),
        c_info: or_color(s.c_info, base.c_info),
        c_shadow: or_color(s.c_shadow, base.c_shadow),
    }
}

/// `base` with the layout and the colours of `s`.
pub open spec fn styled(base: ResolvedStyle, s: RenderStyle) -> ResolvedStyle {
    ResolvedStyle {
        font_size: or_length(s.font_size, base.font_size),
        line_height: or_length(s.line_height, base.line_height),
        pad_x: or_length(s.pad_x, base.pad_x),
        pad_y: or_length(s.pad_y, base.pad_y),
        col_gap: or_length(s.col_gap, base.col_gap),
        ..colored(base, s)
    }
}

/// The colour of a token: the label's where the token has none of its own.
pub open spec fn token_color(s: ResolvedStyle, token: Seq<char>) -> OverlayColor {
    if token == "value"@ {
        s.c_value
    } else if token == "warn"@ {
        s.c_warn
    } else if token == "crit"@ {
        s.c_crit
    } else if token == "good"@ {
        s.c_good
    } else if token == "info"@ {
        s.c_info
    } else {
        s.c_label
    }
}

/// The lengths of the default style: 32, 40, 8, 10 and 12 pixels.
pub open spec fn default_lengths(s: ResolvedStyle) -> bool {
    &&& s.font_size == Px { bits: 0x4200_0000 }
    &&& s.line_height == Px { bits: 0x4220_0000 }
    &&& s.pad_x == Px { bits: 0x4100_0000 }
    &&& s.pad_y == Px { bits: 0x4120_0000 }
    &&& s.col_gap == Px { bits: 0x4140_0000 }
}

/// The colours of the default style: white, grey units, yellow warnings, red
/// where it is critical, green, blue, and a shadow.
pub open spec fn default_colors(s: ResolvedStyle) -> bool {
    &&& s.c_label.0@ == seq![255u8, 255, 255, 255]
    &&& s.c_value.0@ == seq![255u8, 255, 255, 255]
    &&& s.c_unit.0@ == seq![192u8, 192, 192, 255]
    &&& s.c_warn.0@ == seq![220u8, 220, 60, 255]
    &&& s.c_crit.0@ == seq![220u8, 60, 60, 255]
    &&& s.c_good.0@ == seq![80u8, 200, 120, 255]
    &&& s.c_info.0@ == seq![80u8, 160, 220, 255]
    &&& s.c_shadow.0@ == seq![0u8, 0, 0, 160]
}

fn pick_length(own: Option<Px>, base: Px) -> (r: Px)
    ensures
        r == or_length(own, base),
{
    match own {
        Some(v) => v,
        None => base,
    }
}

fn pick_color(own: Option<OverlayColor>, base: OverlayColor) -> (r: OverlayColor)
    ensures
        r == or_color(own, base),
{
    match own {
        Some(c) => c,
        None => base,
    }
}

impl ResolvedStyle {
    /// The style that applies where nothing else is said.
    pub fn defaults() -> (r: Self)
        ensures
            default_lengths(r),
            default_colors(r),
    {
        ResolvedStyle {
            font_size: Px { bits: 0x4200_0000 },
            line_height: Px { bits: 0x4220_0000 },
            pad_x: Px { bits: 0x4100_0000 },
            pad_y: Px { bits: 0x4120_0000 },
            col_gap: Px { bits: 0x4140_0000 },
            c_label: OverlayColor::rgb(255, 255, 255),
            c_value: OverlayColor::rgb(255, 255, 255),
            c_unit: OverlayColor::rgb(192, 192, 192),
            c_warn: OverlayColor::rgb(220, 220, 60),
            c_crit: OverlayColor::rgb(220, 60, 60),
            c_good: OverlayColor::rgb(80, 200, 120),
            c_info: OverlayColor::rgb(80, 160, 220),
            c_shadow: OverlayColor::rgba(0, 0, 0, 160),
        }
    }

    /// The style with all overrides of `style`.
    pub fn apply(&self, style: &RenderStyle) -> (r: Self)
        ensures
            r == styled(*self, *style),
    {
        let base = ResolvedStyle {
            font_size: pick_length(style.font_size, self.font_size),
            line_height: pick_length(style.line_height, self.line_height),
            pad_x: pick_length(style.pad_x, self.pad_x),
            pad_y: pick_length(style.pad_y, self.pad_y),
            col_gap: pick_length(style.col_gap, self.col_gap),
            c_label: self.c_label,
            c_value: self.c_value,
            c_unit: self.c_unit,
            c_warn: self.c_warn,
            c_crit: self.c_crit,
            c_good: self.c_good,
            c_info: self.c_info,
            c_shadow: self.c_shadow,
        };
        base.apply_colors(style)
    }

    /// The style with the colours of `style`.
    pub fn apply_colors(&self, style: &RenderStyle) -> (r: Self)
        ensures
            r == colored(*self, *style),
    {
        ResolvedStyle {
            font_size: self.font_size,
            line_height: self.line_height,
            pad_x: self.pad_x,
            pad_y: self.pad_y,
            col_gap: self.col_gap,
            c_label: pick_color(style.c_label, self.c_label),
            c_value: pick_color(style.c_value, pick_color(style.c_label, self.c_value)),
            c_unit: pick_color(style.c_unit, self.c_unit),
            c_warn: pick_color(style.c_warn, self.c_warn),
            c_crit: pick_color(style.c_crit, self.c_crit),
            c_good: pick_color(style.c_good, self.c_good),
            c_info: pick_color(style.c_info, self.c_info),
            c_shadow: pick_color(style.c_shadow, self.c_shadow),
        }
    }

    /// The colour of a token.
    pub fn token_to_color(&self, token: &str) -> (c: OverlayColor)
        ensures
            c == token_color(*self, token@),
    {
        if same_text(token, "value") {
            self.c_value
        } else if same_text(token, "warn") {
            self.c_warn
        } else if same_text(token, "crit") {
            self.c_crit
        } else if same_text(token, "good") {
            self.c_good
        } else if same_text(token, "info") {
            self.c_info
        } else {
            self.c_label
        }
    }
}

/// The style of an indicator never changes the layout of its window.
pub proof fn lemma_colors_keep_layout(base: ResolvedStyle, s: RenderStyle)
    ensures
        colored(base, s).font_size == base.font_size,
        colored(base, s).line_height == base.line_height,
        colored(base, s).pad_x == base.pad_x,
        colored(base, s).pad_y == base.pad_y,
        colored(base, s).col_gap == base.col_gap,
{
}

/// Where a style names a colour for labels and none for values, both have one
/// colour.
pub proof fn lemma_values_follow_labels(base: ResolvedStyle, s: RenderStyle)
    requires
        s.c_label is Some,
        s.c_value is None,
    ensures
        colored(base, s).c_value == s.c_label->0,
        colored(base, s).c_label == s.c_label->0,
        styled(base, s).c_value == s.c_label->0,
{
}

/// A style that overrides nothing changes nothing.
pub proof fn lemma_no_style_changes_nothing(base: ResolvedStyle)
    ensures
        styled(base, crate::defs::no_style()) == base,
        colored(base, crate::defs::no_style()) == base,
{
}

/// A colour that a style names is the colour of the row or the window, and one
/// that it leaves open is the colour from before. Values follow the labels where a
/// style names a colour for labels alone.
pub proof fn lemma_each_color_is_its_own(base: ResolvedStyle, s: RenderStyle, c: OverlayColor)
    ensures
        s.c_label == Some(c) ==> colored(base, s).c_label == c && styled(base, s).c_label == c,
        s.c_label is None ==> colored(base, s).c_label == base.c_label && styled(base, s).c_label
            == base.c_label,
        s.c_unit == Some(c) ==> colored(base, s).c_unit == c && styled(base, s).c_unit == c,
        s.c_unit is None ==> colored(base, s).c_unit == base.c_unit && styled(base, s).c_unit
            == base.c_unit,
        s.c_warn == Some(c) ==> colored(base, s).c_warn == c && styled(base, s).c_warn == c,
        s.c_warn is None ==> colored(base, s).c_warn == base.c_warn && styled(base, s).c_warn
            == base.c_warn,
        s.c_crit == Some(c) ==> colored(base, s).c_crit == c && styled(base, s).c_crit == c,
        s.c_crit is None ==> colored(base, s).c_crit == base.c_crit && styled(base, s).c_crit
            == base.c_crit,
        s.c_good == Some(c) ==> colored(base, s).c_good == c && styled(base, s).c_good == c,
        s.c_good is None ==> colored(base, s).c_good == base.c_good && styled(base, s).c_good
            == base.c_good,
        s.c_info == Some(c) ==> colored(base, s).c_info == c && styled(base, s).c_info == c,
        s.c_info is None ==> colored(base, s).c_info == base.c_info && styled(base, s).c_info
            == base.c_info,
        s.c_shadow == Some(c) ==> colored(base, s).c_shadow == c && styled(base, s).c_shadow == c,
        s.c_shadow is None ==> colored(base, s).c_shadow == base.c_shadow && styled(base, s).c_shadow
            == base.c_shadow,
        s.c_value == Some(c) ==> colored(base, s).c_value == c && styled(base, s).c_value == c,
        s.c_value is None && s.c_label == Some(c) ==> colored(base, s).c_value == c && styled(
            base,
            s,
        ).c_value == c,
        s.c_value is None && s.c_label is None ==> colored(base, s).c_value == base.c_value
            && styled(base, s).c_value == base.c_value,
{
}

/// A length that the style of a window names is its length, and one that it
/// leaves open is the one from before.
pub proof fn lemma_each_length_is_its_own(base: ResolvedStyle, s: RenderStyle, p: Px)
    ensures
        s.font_size == Some(p) ==> styled(base, s).font_size == p,
        s.font_size is None ==> styled(base, s).font_size == base.font_size,
        s.line_height == Some(p) ==> styled(base, s).line_height == p,
        s.line_height is None ==> styled(base, s).line_height == base.line_height,
        s.pad_x == Some(p) ==> styled(base, s).pad_x == p,
        s.pad_x is None ==> styled(base, s).pad_x == base.pad_x,
        s.pad_y == Some(p) ==> styled(base, s).pad_y == p,
        s.pad_y is None ==> styled(base, s).pad_y == base.pad_y,
        s.col_gap == Some(p) ==> styled(base, s).col_gap == p,
        s.col_gap is None ==> styled(base, s).col_gap == base.col_gap,
{
}

/// Each token has its own colour, and any other that of the labels.
pub proof fn lemma_each_token_is_its_own(s: ResolvedStyle, token: Seq<char>)
    ensures
        token_color(s, "value"@) == s.c_value,
        token_color(s, "warn"@) == s.c_warn,
        token_color(s, "crit"@) == s.c_crit,
        token_color(s, "good"@) == s.c_good,
        token_color(s, "info"@) == s.c_info,
        token != "value"@ && token != "warn"@ && token != "crit"@ && token != "good"@ && token
            != "info"@ ==> token_color(s, token) == s.c_label,
{
    lemma_token_names();
}

/// The tokens differ.
pub proof fn lemma_token_names()
    ensures
        "value"@ != "warn"@,
        "value"@ != "crit"@,
        "value"@ != "good"@,
        "value"@ != "info"@,
        "warn"@ != "crit"@,
        "warn"@ != "good"@,
        "warn"@ != "info"@,
        "crit"@ != "good"@,
        "crit"@ != "info"@,
        "good"@ != "info"@,
        "value"@.len() > 0,
        "warn"@.len() > 0,
        "crit"@.len() > 0,
        "good"@.len() > 0,
        "info"@.len() > 0,
{
    reveal_strlit("value");
    reveal_strlit("warn");
    reveal_strlit("crit");
    reveal_strlit("good");
    reveal_strlit("info");
    assert("value"@.len() == 5 && "warn"@.len() == 4 && "crit"@.len() == 4 && "good"@.len() == 4
        && "info"@.len() == 4);
    assert("warn"@[0] == 'w' && "crit"@[0] == 'c' && "good"@[0] == 'g' && "info"@[0] == 'i');
}

/// The default style is written 32 pixels high in lines of 40, with 8 and 10
/// pixels at its edges and 12 between its columns.
pub proof fn lemma_default_pixels(s: ResolvedStyle)
    requires
        default_lengths(s),
    ensures
        px_value(s.font_size.bits) == 32 * pow2(149),
        px_value(s.line_height.bits) == 40 * pow2(149),
        px_value(s.pad_x.bits) == 8 * pow2(149),
        px_value(s.pad_y.bits) == 10 * pow2(149),
        px_value(s.col_gap.bits) == 12 * pow2(149),
{
    lemma2_to64();
    lemma_px_whole_number(s.font_size.bits, 32, 18);
    lemma_px_whole_number(s.line_height.bits, 40, 18);
    lemma_px_whole_number(s.pad_x.bits, 8, 20);
    lemma_px_whole_number(s.pad_y.bits, 10, 20);
    lemma_px_whole_number(s.col_gap.bits, 12, 20);
}

} // verus!
