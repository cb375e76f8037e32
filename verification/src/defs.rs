//! What the configuration files describe: fields, indicators, windows and
//! their styles.
use vstd::prelude::*;

use crate::color::OverlayColor;
use crate::num::Num;
use crate::single::{same_length, Px};

verus! {

/// One field of the game's interface.
#[derive(Debug)]
pub struct FieldDef {
    pub id: String,
    pub endpoint: String,
    pub api_key: String,
    pub label: String,
    pub unit: String,
    /// `f64`, `bool` or another type that is not read.
    pub field_type: String,
}

impl Clone for FieldDef {
    fn clone(&self) -> (r: Self)
        ensures
            r == *self,
    {
        FieldDef {
            id: self.id.clone(),
            endpoint: self.endpoint.clone(),
            api_key: self.api_key.clone(),
            label: self.label.clone(),
            unit: self.unit.clone(),
            field_type: self.field_type.clone(),
        }
    }
}

/// Style overrides of a window or of an indicator. What is absent falls back to
/// the style around it; an indicator overrides colours only.
#[derive(Debug, Clone, Copy)]
pub struct RenderStyle {
    pub font_size: Option<Px>,
    pub line_height: Option<Px>,
    pub pad_x: Option<Px>,
    pub pad_y: Option<Px>,
    pub col_gap: Option<Px>,
    pub c_label: Option<OverlayColor>,
    /// The colour of values in the normal state; that of the labels where there
    /// is none.
    pub c_value: Option<OverlayColor>,
    pub c_unit: Option<OverlayColor>,
    pub c_warn: Option<OverlayColor>,
    pub c_crit: Option<OverlayColor>,
    pub c_good: Option<OverlayColor>,
    pub c_info: Option<OverlayColor>,
    pub c_shadow: Option<OverlayColor>,
}

/// The style that overrides nothing.
pub open spec fn no_style() -> RenderStyle {
    RenderStyle {
        font_size: None,
        line_height: None,
        pad_x: None,
        pad_y: None,
        col_gap: None,
        c_label: None,
        c_value: None,
        c_unit: None,
        c_warn: None,
        c_crit: None,
        c_good: None,
        c_info: None,
        c_shadow: None,
    }
}

impl Default for RenderStyle {
    fn default() -> (r: Self)
        ensures
            r == no_style(),
    {
        RenderStyle {
            font_size: None,
            line_height: None,
            pad_x: None,
            pad_y: None,
            col_gap: None,
            c_label: None,
            c_value: None,
            c_unit: None,
            c_warn: None,
            c_crit: None,
            c_good: None,
            c_info: None,
            c_shadow: None,
        }
    }
}

/// Whether two optional lengths are equal.
pub open spec fn same_lengths(a: Option<Px>, b: Option<Px>) -> bool {
    match (a, b) {
        (Some(x), Some(y)) => same_length(x, y),
        (None, None) => true,
        _ => false,
    }
}

/// Whether two optional colours are equal.
pub open spec fn same_colors(a: Option<OverlayColor>, b: Option<OverlayColor>) -> bool {
    match (a, b) {
        (Some(x), Some(y)) => x.0@ == y.0@,
        (None, None) => true,
        _ => false,
    }
}

/// Whether two styles override the same with the same.
pub open spec fn same_style(a: RenderStyle, b: RenderStyle) -> bool {
    &&& same_lengths(a.font_size, b.font_size)
    &&& same_lengths(a.line_height, b.line_height)
    &&& same_lengths(a.pad_x, b.pad_x)
    &&& same_lengths(a.pad_y, b.pad_y)
    &&& same_lengths(a.col_gap, b.col_gap)
    &&& same_colors(a.c_label, b.c_label)
    &&& same_colors(a.c_value, b.c_value)
    &&& same_colors(a.c_unit, b.c_unit)
    &&& same_colors(a.c_warn, b.c_warn)
    &&& same_colors(a.c_crit, b.c_crit)
    &&& same_colors(a.c_good, b.c_good)
    &&& same_colors(a.c_info, b.c_info)
    &&& same_colors(a.c_shadow, b.c_shadow)
}

/// Whether two optional styles are equal.
pub open spec fn same_styles(a: Option<RenderStyle>, b: Option<RenderStyle>) -> bool {
    match (a, b) {
        (Some(x), Some(y)) => same_style(x, y),
        (None, None) => true,
        _ => false,
    }
}

fn equal_lengths(a: Option<Px>, b: Option<Px>) -> (r: bool)
    ensures
        r == same_lengths(a, b),
{
    match (a, b) {
        (Some(x), Some(y)) => x.equals(y),
        (None, None) => true,
        _ => false,
    }
}

fn equal_colors(a: Option<OverlayColor>, b: Option<OverlayColor>) -> (r: bool)
    ensures
        r == same_colors(a, b),
{
    match (a, b) {
        (Some(x), Some(y)) => {
            let r: bool = x.0[0] == y.0[0] && x.0[1] == y.0[1] && x.0[2] == y.0[2] && x.0[3]
                == y.0[3];
            proof {
                if r {
                    assert(x.0@ =~= y.0@);
                }
            }
            r
        },
        (None, None) => true,
        _ => false,
    }
}

impl RenderStyle {
    /// Whether two styles override the same with the same.
    pub fn equals(&self, other: &RenderStyle) -> (r: bool)
        ensures
            r == same_style(*self, *other),
    {
        equal_lengths(self.font_size, other.font_size) && equal_lengths(
            self.line_height,
            other.line_height,
        ) && equal_lengths(self.pad_x, other.pad_x) && equal_lengths(self.pad_y, other.pad_y)
            && equal_lengths(self.col_gap, other.col_gap) && equal_colors(
            self.c_label,
            other.c_label,
        ) && equal_colors(self.c_value, other.c_value) && equal_colors(self.c_unit, other.c_unit)
            && equal_colors(self.c_warn, other.c_warn) && equal_colors(self.c_crit, other.c_crit)
            && equal_colors(self.c_good, other.c_good) && equal_colors(self.c_info, other.c_info)
            && equal_colors(self.c_shadow, other.c_shadow)
    }
}

/// Whether two optional styles are equal.
pub fn equal_styles(a: Option<RenderStyle>, b: Option<RenderStyle>) -> (r: bool)
    ensures
        r == same_styles(a, b),
{
    match (a, b) {
        (Some(x), Some(y)) => x.equals(&y),
        (None, None) => true,
        _ => false,
    }
}

/// A level that a value is compared with: a number, or a formula over the
/// fields of the frame.
#[derive(Debug)]
pub enum Threshold {
    Fixed(Num),
    Formula(String),
}

impl Clone for Threshold {
    fn clone(&self) -> (r: Self)
        ensures
            r == *self,
    {
        match self {
            Threshold::Fixed(v) => Threshold::Fixed(*v),
            Threshold::Formula(t) => Threshold::Formula(t.clone()),
        }
    }
}

/// One row of a window: what it shows, when, and in which colour.
#[derive(Debug)]
pub struct IndicatorDef {
    pub id: String,
    pub label: String,
    pub unit: String,
    pub formula: String,
    pub format: String,
    pub color: Option<String>,
    pub warn_below: Option<Threshold>,
    pub warn_above: Option<Threshold>,
    pub good_above: Option<Threshold>,
    pub good_below: Option<Threshold>,
    pub crit_above: Option<Threshold>,
    pub crit_below: Option<Threshold>,
    pub show_when: Option<String>,
    pub style: Option<RenderStyle>,
}

fn copy_threshold(t: &Option<Threshold>) -> (r: Option<Threshold>)
    ensures
        r == *t,
{
    match t {
        Some(x) => Some(x.clone()),
        None => None,
    }
}

/// A copy of an optional text.
pub fn copy_option(t: &Option<String>) -> (r: Option<String>)
    ensures
        r == *t,
{
    match t {
        Some(x) => Some(x.clone()),
        None => None,
    }
}

impl Clone for IndicatorDef {
    fn clone(&self) -> (r: Self)
        ensures
            r == *self,
    {
        IndicatorDef {
            id: self.id.clone(),
            label: self.label.clone(),
            unit: self.unit.clone(),
            formula: self.formula.clone(),
            format: self.format.clone(),
            color: copy_option(&self.color),
            warn_below: copy_threshold(&self.warn_below),
            warn_above: copy_threshold(&self.warn_above),
            good_above: copy_threshold(&self.good_above),
            good_below: copy_threshold(&self.good_below),
            crit_above: copy_threshold(&self.crit_above),
            crit_below: copy_threshold(&self.crit_below),
            show_when: copy_option(&self.show_when),
            style: self.style,
        }
    }
}

/// The format of a value whose definition names none.
pub fn default_format() -> (r: String)
    ensures
        r@ == "integer"@,
{
    "integer".to_string()
}

/// Copies of the indicators.
pub fn copy_indicators(v: &Vec<IndicatorDef>) -> (r: Vec<IndicatorDef>)
    ensures
        r@ == v@,
{
    let mut r: Vec<IndicatorDef> = Vec::new();
    let mut i: usize = 0;
    while i < v.len()
        invariant
            i <= v.len(),
            r@ == v@.take(i as int),
        decreases v.len() - i,
    {
        r.push(v[i].clone());
        i = i + 1;
        proof {
            assert(r@ =~= v@.take(i as int));
        }
    }
    proof {
        assert(v@.take(i as int) =~= v@);
    }
    r
}

/// A window of the overlay.
#[derive(Debug)]
pub struct WindowDef {
    pub id: String,
    pub x: i32,
    pub y: i32,
    pub width: Option<u32>,
    pub height: Option<u32>,
    pub indicators: Vec<IndicatorDef>,
    pub style: Option<RenderStyle>,
}

/// The height of a window with `n` rows and none of its own.
pub open spec fn row_height(n: nat) -> nat {
    20 + (if n == 0 {
        1
    } else {
        n
    }) * 26 + 10
}

/// The most rows whose height fits its type.
pub const MOST_ROWS: usize = 165_191_048;

impl WindowDef {
    /// The height: its own, or one row for each indicator.
    pub fn computed_height(&self) -> (h: u32)
        requires
            self.height is None ==> self.indicators@.len() <= MOST_ROWS,
        ensures
            h == (match self.height {
                Some(own) => own as nat,
                None => row_height(self.indicators@.len()),
            }),
    {
        match self.height {
            Some(own) => own,
            None => {
                let n: usize = self.indicators.len();
                let rows: u32 = if n == 0 {
                    1
                } else {
                    n as u32
                };
                20 + rows * 26 + 10
            },
        }
    }

    /// The width: its own, or 240.
    pub fn computed_width(&self) -> (w: u32)
        ensures
            w == (match self.width {
                Some(own) => own,
                None => 240u32,
            }),
    {
        match self.width {
            Some(own) => own,
            None => 240,
        }
    }
}

impl Clone for WindowDef {
    fn clone(&self) -> (r: Self)
        ensures
            r.id@ == self.id@,
            r.x == self.x,
            r.y == self.y,
            r.width == self.width,
            r.height == self.height,
            r.indicators@ == self.indicators@,
            r.style == self.style,
    {
        WindowDef {
            id: self.id.clone(),
            x: self.x,
            y: self.y,
            width: self.width,
            height: self.height,
            indicators: copy_indicators(&self.indicators),
            style: self.style,
        }
    }
}

/// The settings of the application.
#[derive(Debug, Clone, Copy, PartialEq, Eq, Structural)]
pub struct AppConfig {
    /// Show the overlay whatever window is in front.
    pub always_show: bool,
    /// Show the overlay while the settings window is in front as well.
    pub show_when_byoh_foreground: bool,
    /// Hide the overlay unless a mission is running.
    pub only_during_mission: bool,
}

impl Default for AppConfig {
    fn default() -> (r: Self)
        ensures
            r == (AppConfig {
                always_show: false,
                show_when_byoh_foreground: false,
                only_during_mission: false,
            }),
    {
        AppConfig {
            always_show: false,
            show_when_byoh_foreground: false,
            only_during_mission: false,
        }
    }
}

} // verus!
