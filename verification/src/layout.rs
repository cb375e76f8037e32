//! The pieces of text of a window, where they stand, and when they must be laid
//! out anew.
use vstd::arithmetic::power2::pow2;
use vstd::prelude::*;

use crate::calculator::{DisplayRow, RowView};
use crate::color::OverlayColor;
use crate::defs::{equal_styles, same_styles, RenderStyle};
use crate::single::{px_ceiling, px_difference, px_larger, px_less, px_nan, px_product, px_sum, px_value, px_whole, Px};
use crate::style::{colored, default_colors, default_lengths, lemma_default_pixels, styled, token_color, ResolvedStyle};
use crate::text::same_text;

verus! {

/// Whether a blinking text is on, `ms` milliseconds into the blinking: two
/// periods in a second.
pub open spec fn blinks_on(ms: nat) -> bool {
    (ms / 250) % 2 == 0
}

/// Whether a blinking text is on.
pub fn blink_on(elapsed_ms: u128) -> (r: bool)
    ensures
        r == blinks_on(elapsed_ms as nat),
{
    (elapsed_ms / 250) % 2 == 0
}

/// The widths of the texts of a row, as they were measured; that of an empty
/// text is not read.
#[derive(Clone, Copy, Debug)]
pub struct RowWidths {
    pub label: Px,
    pub value: Px,
    pub unit: Px,
}

/// The largest width of the labels.
pub open spec fn label_column(rows: Seq<DisplayRow>, w: Seq<RowWidths>) -> u32
    decreases rows.len(),
{
    if rows.len() == 0 {
        0
    } else {
        let front: u32 = label_column(rows.drop_last(), w.drop_last());
        if rows.last().label@.len() > 0 {
            px_larger(front, w.last().label.bits)
        } else {
            front
        }
    }
}

/// The largest width of the values.
pub open spec fn value_column(rows: Seq<DisplayRow>, w: Seq<RowWidths>) -> u32
    decreases rows.len(),
{
    if rows.len() == 0 {
        0
    } else {
        let front: u32 = value_column(rows.drop_last(), w.drop_last());
        if rows.last().value_str@.len() > 0 {
            px_larger(front, w.last().value.bits)
        } else {
            front
        }
    }
}

/// The largest width of the units.
pub open spec fn unit_column(rows: Seq<DisplayRow>, w: Seq<RowWidths>) -> u32
    decreases rows.len(),
{
    if rows.len() == 0 {
        0
    } else {
        let front: u32 = unit_column(rows.drop_last(), w.drop_last());
        if rows.last().unit@.len() > 0 {
            px_larger(front, w.last().unit.bits)
        } else {
            front
        }
    }
}

/// Whether any row has a unit.
pub open spec fn any_unit(rows: Seq<DisplayRow>) -> bool {
    exists|i: int| 0 <= i < rows.len() && (#[trigger] rows[i]).unit@.len() > 0
}

/// One piece of text.
pub struct Entry {
    pub text: String,
    pub x: Px,
    pub y: Px,
    pub color: OverlayColor,
}

/// The contents of a piece of text.
pub struct EntryView {
    pub text: Seq<char>,
    pub x: u32,
    pub y: u32,
    pub color: OverlayColor,
}

impl View for Entry {
    type V = EntryView;

    open spec fn view(&self) -> EntryView {
        EntryView { text: self.text@, x: self.x.bits, y: self.y.bits, color: self.color }
    }
}

/// The contents of pieces.
pub open spec fn entry_views(v: Seq<Entry>) -> Seq<EntryView> {
    v.map_values(|e: Entry| e@)
}

/// 2 pixels, the offset of a shadow.
pub const SHADOW: u32 = 0x4000_0000;

/// A text and its shadow, which comes first.
pub open spec fn shadowed(
    text: Seq<char>,
    x: u32,
    y: u32,
    color: OverlayColor,
    shadow: OverlayColor,
) -> Seq<EntryView> {
    seq![
        EntryView { text, x: px_sum(x, SHADOW), y: px_sum(y, SHADOW), color: shadow },
        EntryView { text, x, y, color },
    ]
}

/// The columns of a window.
pub struct Columns {
    pub label: Px,
    pub value: Px,
    pub unit: Px,
}

/// Where the value column ends on its left.
pub open spec fn value_left(s: ResolvedStyle, label: u32) -> u32 {
    px_sum(px_sum(s.pad_x.bits, label), s.col_gap.bits)
}

/// The style of a row: that of the window with the row's colours.
pub open spec fn row_style(win: ResolvedStyle, row: DisplayRow) -> ResolvedStyle {
    match row.style {
        Some(s) => colored(win, s),
        None => win,
    }
}

/// Whether the value and the unit of a row are shown: a critical one blinks.
pub open spec fn lit(row: DisplayRow, blink: bool) -> bool {
    row.color@ != "crit"@ || blink
}

/// The pieces of the row at place `i`.
pub open spec fn row_pieces(
    win: ResolvedStyle,
    row: DisplayRow,
    i: nat,
    w: RowWidths,
    label: u32,
    value: u32,
    blink: bool,
) -> Seq<EntryView> {
    let s: ResolvedStyle = row_style(win, row);
    let y: u32 = px_sum(win.pad_y.bits, px_product(px_whole(i), win.line_height.bits));
    let main: OverlayColor = token_color(s, row.color@);
    let plain: bool = row.color@ == "value"@ || row.color@.len() == 0;
    let left: u32 = value_left(win, label);
    let of_label: Seq<EntryView> = if row.label@.len() > 0 {
        shadowed(
            row.label@,
            win.pad_x.bits,
            y,
            if plain {
                s.c_label
            } else {
                main
            },
            s.c_shadow,
        )
    } else {
        seq![]
    };
    let of_value: Seq<EntryView> = if lit(row, blink) && row.value_str@.len() > 0 {
        shadowed(
            row.value_str@,
            px_sum(left, px_larger(px_difference(value, w.value.bits), 0)),
            y,
            main,
            s.c_shadow,
        )
    } else {
        seq![]
    };
    let of_unit: Seq<EntryView> = if lit(row, blink) && row.unit@.len() > 0 {
        shadowed(
            row.unit@,
            px_sum(px_sum(left, value), win.col_gap.bits),
            y,
            s.c_unit,
            s.c_shadow,
        )
    } else {
        seq![]
    };
    of_label + of_value + of_unit
}

/// The pieces of the rows.
pub open spec fn all_pieces(
    win: ResolvedStyle,
    rows: Seq<DisplayRow>,
    w: Seq<RowWidths>,
    label: u32,
    value: u32,
    blink: bool,
) -> Seq<EntryView>
    decreases rows.len(),
{
    if rows.len() == 0 {
        seq![]
    } else {
        all_pieces(win, rows.drop_last(), w.drop_last(), label, value, blink) + row_pieces(
            win,
            rows.last(),
            (rows.len() - 1) as nat,
            w.last(),
            label,
            value,
            blink,
        )
    }
}

/// `n`, or one.
pub open spec fn at_least_one(n: nat) -> nat {
    if n == 0 {
        1
    } else {
        n
    }
}

/// The width that the columns need.
pub open spec fn needed_width(s: ResolvedStyle, label: u32, value: u32, unit: u32, units: bool) -> nat {
    let tail: u32 = if units {
        px_sum(s.col_gap.bits, unit)
    } else {
        0
    };
    at_least_one(
        px_ceiling(
            px_sum(px_sum(px_sum(value_left(s, label), value), tail), s.pad_x.bits),
        ),
    )
}

/// The height that the rows need.
pub open spec fn needed_height(s: ResolvedStyle, n: nat) -> nat {
    at_least_one(
        px_ceiling(
            px_sum(
                px_sum(s.pad_y.bits, px_product(px_whole(at_least_one(n)), s.line_height.bits)),
                s.pad_y.bits,
            ),
        ),
    )
}

/// What a window shows: the pieces, and the size that they need.
pub struct Layout {
    pub entries: Vec<Entry>,
    pub width: u32,
    pub height: u32,
}

/// Appends a text and its shadow.
fn push_shadowed(
    out: &mut Vec<Entry>,
    text: &String,
    x: Px,
    y: Px,
    color: OverlayColor,
    shadow: OverlayColor,
)
    ensures
        entry_views(final(out)@) == entry_views(old(out)@) + shadowed(
            text@,
            x.bits,
            y.bits,
            color,
            shadow,
        ),
{
    let ghost start = entry_views(out@);
    let offset = Px { bits: SHADOW };
    out.push(Entry { text: text.clone(), x: x.plus(offset), y: y.plus(offset), color: shadow });
    out.push(Entry { text: text.clone(), x, y, color });
    proof {
        assert(entry_views(out@) =~= start + shadowed(text@, x.bits, y.bits, color, shadow));
    }
}

/// Appends the pieces of the row at place `i`.
fn push_row(
    out: &mut Vec<Entry>,
    win: &ResolvedStyle,
    row: &DisplayRow,
    i: usize,
    w: RowWidths,
    label: Px,
    value: Px,
    blink: bool,
)
    ensures
        entry_views(final(out)@) == entry_views(old(out)@) + row_pieces(
            *win,
            *row,
            i as nat,
            w,
            label.bits,
            value.bits,
            blink,
        ),
{
    let ghost start = entry_views(out@);
    let s = match &row.style {
        Some(own) => win.apply_colors(own),
        None => *win,
    };
    let y = win.pad_y.plus(Px::of_u64(i as u64).times(win.line_height));
    let main = s.token_to_color(row.color.as_str());
    let show: bool = !same_text(row.color.as_str(), "crit") || blink;
    let left = win.pad_x.plus(label).plus(win.col_gap);
    let plain: bool = same_text(row.color.as_str(), "value") || row.color.as_str().is_empty();
    let first = if plain {
        s.c_label
    } else {
        main
    };
    let vx = left.plus(value.minus(w.value).max(Px { bits: 0 }));
    let ux = left.plus(value).plus(win.col_gap);
    let ghost of_label: Seq<EntryView> = if row.label@.len() > 0 {
        shadowed(row.label@, win.pad_x.bits, y.bits, first, s.c_shadow)
    } else {
        seq![]
    };
    let ghost of_value: Seq<EntryView> = if lit(*row, blink) && row.value_str@.len() > 0 {
        shadowed(row.value_str@, vx.bits, y.bits, main, s.c_shadow)
    } else {
        seq![]
    };
    let ghost of_unit: Seq<EntryView> = if lit(*row, blink) && row.unit@.len() > 0 {
        shadowed(row.unit@, ux.bits, y.bits, s.c_unit, s.c_shadow)
    } else {
        seq![]
    };
    proof {
        assert(row_pieces(*win, *row, i as nat, w, label.bits, value.bits, blink) == of_label
            + of_value + of_unit);
    }
    if !row.label.as_str().is_empty() {
        push_shadowed(out, &row.label, win.pad_x, y, first, s.c_shadow);
    }
    proof {
        assert(entry_views(out@) =~= start + of_label);
    }
    if show && !row.value_str.as_str().is_empty() {
        push_shadowed(out, &row.value_str, vx, y, main, s.c_shadow);
    }
    proof {
        assert(entry_views(out@) =~= start + of_label + of_value);
    }
    if show && !row.unit.as_str().is_empty() {
        push_shadowed(out, &row.unit, ux, y, s.c_unit, s.c_shadow);
    }
    proof {
        assert(entry_views(out@) =~= start + (of_label + of_value + of_unit));
    }
}

/// The widths of the columns, and whether any row has a unit.
fn columns(rows: &Vec<DisplayRow>, w: &Vec<RowWidths>) -> (r: (Columns, bool))
    requires
        rows@.len() == w@.len(),
    ensures
        r.0.label.bits == label_column(rows@, w@),
        r.0.value.bits == value_column(rows@, w@),
        r.0.unit.bits == unit_column(rows@, w@),
        r.1 == any_unit(rows@),
{
    let mut label = Px { bits: 0 };
    let mut value = Px { bits: 0 };
    let mut unit = Px { bits: 0 };
    let mut units: bool = false;
    let mut i: usize = 0;
    while i < rows.len()
        invariant
            i <= rows.len(),
            rows@.len() == w@.len(),
            label.bits == label_column(rows@.take(i as int), w@.take(i as int)),
            value.bits == value_column(rows@.take(i as int), w@.take(i as int)),
            unit.bits == unit_column(rows@.take(i as int), w@.take(i as int)),
            units == (exists|j: int| 0 <= j < i && (#[trigger] rows@[j]).unit@.len() > 0),
        decreases rows.len() - i,
    {
        proof {
            assert(rows@.take(i as int + 1).drop_last() =~= rows@.take(i as int));
            assert(w@.take(i as int + 1).drop_last() =~= w@.take(i as int));
        }
        let row: &DisplayRow = &rows[i];
        if !row.label.as_str().is_empty() {
            label = label.max(w[i].label);
        }
        if !row.value_str.as_str().is_empty() {
            value = value.max(w[i].value);
        }
        if !row.unit.as_str().is_empty() {
            unit = unit.max(w[i].unit);
            units = true;
            proof {
                assert(rows@[i as int].unit@.len() > 0);
            }
        }
        i = i + 1;
    }
    proof {
        assert(rows@.take(i as int) =~= rows@);
        assert(w@.take(i as int) =~= w@);
    }
    (Columns { label, value, unit }, units)
}

/// The style of a window: the default one with the window's overrides.
pub open spec fn window_style_is(win: ResolvedStyle, own: Option<RenderStyle>) -> bool {
    exists|base: ResolvedStyle|
        default_lengths(base) && #[trigger] default_colors(base) && win == (match own {
            Some(s) => styled(base, s),
            None => base,
        })
}

/// The style of a window.
pub fn window_style(own: Option<RenderStyle>) -> (win: ResolvedStyle)
    ensures
        window_style_is(win, own),
{
    let base = ResolvedStyle::defaults();
    proof {
        assert(default_colors(base));
    }
    match own {
        Some(s) => base.apply(&s),
        None => base,
    }
}

/// Lays out the rows of a window whose style is `win`: a column of labels, one
/// of values set to the right, and one of units, each text with a shadow.
pub fn make_text_entries(
    win: &ResolvedStyle,
    rows: &Vec<DisplayRow>,
    blink: bool,
    widths: &Vec<RowWidths>,
) -> (r: Layout)
    requires
        rows@.len() == widths@.len(),
    ensures
        ({
            let label: u32 = label_column(rows@, widths@);
            let value: u32 = value_column(rows@, widths@);
            let unit: u32 = unit_column(rows@, widths@);
            &&& entry_views(r.entries@) == all_pieces(*win, rows@, widths@, label, value, blink)
            &&& r.width == needed_width(*win, label, value, unit, any_unit(rows@))
            &&& r.height == needed_height(*win, rows@.len())
        }),
{
    let (cols, units) = columns(rows, widths);
    let mut out: Vec<Entry> = Vec::new();
    let mut i: usize = 0;
    proof {
        assert(entry_views(out@) =~= seq![]);
    }
    while i < rows.len()
        invariant
            i <= rows.len(),
            rows@.len() == widths@.len(),
            entry_views(out@) == all_pieces(
                *win,
                rows@.take(i as int),
                widths@.take(i as int),
                cols.label.bits,
                cols.value.bits,
                blink,
            ),
        decreases rows.len() - i,
    {
        proof {
            assert(rows@.take(i as int + 1).drop_last() =~= rows@.take(i as int));
            assert(widths@.take(i as int + 1).drop_last() =~= widths@.take(i as int));
        }
        push_row(&mut out, win, &rows[i], i, widths[i], cols.label, cols.value, blink);
        i = i + 1;
    }
    proof {
        assert(rows@.take(i as int) =~= rows@);
        assert(widths@.take(i as int) =~= widths@);
    }
    let tail = if units {
        win.col_gap.plus(cols.unit)
    } else {
        Px { bits: 0 }
    };
    let wide = win.pad_x.plus(cols.label).plus(win.col_gap).plus(cols.value).plus(tail).plus(
        win.pad_x,
    ).ceiling();
    let n: usize = if rows.len() == 0 {
        1
    } else {
        rows.len()
    };
    let high = win.pad_y.plus(Px::of_u64(n as u64).times(win.line_height)).plus(win.pad_y).ceiling();
    Layout {
        entries: out,
        width: if wide == 0 {
            1
        } else {
            wide
        },
        height: if high == 0 {
            1
        } else {
            high
        },
    }
}

/// While a critical row is dark only its label is shown, which never blinks.
pub proof fn lemma_critical_blinks(
    win: ResolvedStyle,
    row: DisplayRow,
    i: nat,
    w: RowWidths,
    label: u32,
    value: u32,
)
    requires
        row.color@ == "crit"@,
    ensures
        row_pieces(win, row, i, w, label, value, false).len() == (if row.label@.len() > 0 {
            2int
        } else {
            0int
        }),
        row.label@.len() > 0 ==> row_pieces(win, row, i, w, label, value, false)[1] == row_pieces(
            win,
            row,
            i,
            w,
            label,
            value,
            true,
        )[1],
{
}

/// A row that is not critical does not blink.
pub proof fn lemma_others_do_not_blink(
    win: ResolvedStyle,
    row: DisplayRow,
    i: nat,
    w: RowWidths,
    label: u32,
    value: u32,
)
    requires
        row.color@ != "crit"@,
    ensures
        row_pieces(win, row, i, w, label, value, false) == row_pieces(
            win,
            row,
            i,
            w,
            label,
            value,
            true,
        ),
{
}

/// The laid-out texts of a window, kept as long as what they were made of stays
/// the same.
pub struct TextCache<E> {
    pub win_style_key: Option<RenderStyle>,
    pub row_key: Vec<DisplayRow>,
    pub blink_key: bool,
    pub entries: Vec<E>,
    pub cached_w: u32,
    pub cached_h: u32,
}

/// Whether two rows show the same in the same style.
pub open spec fn same_row(a: DisplayRow, b: DisplayRow) -> bool {
    &&& a.label@ == b.label@
    &&& a.value_str@ == b.value_str@
    &&& a.unit@ == b.unit@
    &&& a.color@ == b.color@
    &&& same_styles(a.style, b.style)
}

/// Whether two lists of rows show the same.
pub open spec fn same_rows(a: Seq<DisplayRow>, b: Seq<DisplayRow>) -> bool {
    &&& a.len() == b.len()
    &&& forall|i: int| 0 <= i < a.len() ==> same_row(#[trigger] a[i], b[i])
}

impl<E> TextCache<E> {
    /// Whether the texts were made of these rows.
    pub open spec fn matches_key(
        self,
        rows: Seq<DisplayRow>,
        blink: bool,
        win_style: Option<RenderStyle>,
    ) -> bool {
        &&& blink == self.blink_key
        &&& same_styles(win_style, self.win_style_key)
        &&& same_rows(rows, self.row_key@)
    }

    /// A cache of nothing.
    pub fn new() -> (r: Self)
        ensures
            r.win_style_key is None,
            r.row_key@.len() == 0,
            !r.blink_key,
            r.entries@.len() == 0,
            r.cached_w == 1,
            r.cached_h == 1,
    {
        TextCache {
            win_style_key: None,
            row_key: Vec::new(),
            blink_key: false,
            entries: Vec::new(),
            cached_w: 1,
            cached_h: 1,
        }
    }

    /// Whether the texts are those of these rows.
    pub fn is_valid(&self, rows: &Vec<DisplayRow>, blink: bool, win_style: Option<RenderStyle>) -> (r:
        bool)
        ensures
            r == self.matches_key(rows@, blink, win_style),
    {
        if blink != self.blink_key || !equal_styles(win_style, self.win_style_key) || rows.len()
            != self.row_key.len() {
            return false;
        }
        let mut i: usize = 0;
        while i < rows.len()
            invariant
                i <= rows.len(),
                rows@.len() == self.row_key@.len(),
                blink == self.blink_key,
                same_styles(win_style, self.win_style_key),
                forall|j: int| 0 <= j < i ==> same_row(#[trigger] rows@[j], self.row_key@[j]),
            decreases rows.len() - i,
        {
            let a: &DisplayRow = &rows[i];
            let b: &DisplayRow = &self.row_key[i];
            let same: bool = a.label == b.label && a.value_str == b.value_str && a.unit == b.unit
                && a.color == b.color && equal_styles(a.style, b.style);
            if !same {
                proof {
                    assert(!same_row(rows@[i as int], self.row_key@[i as int]));
                }
                return false;
            }
            i = i + 1;
        }
        true
    }

    /// Keeps the texts that were made of these rows.
    pub fn rebuild(
        &mut self,
        rows: &Vec<DisplayRow>,
        blink: bool,
        win_style: Option<RenderStyle>,
        entries: Vec<E>,
        w: u32,
        h: u32,
    )
        ensures
            final(self).win_style_key == win_style,
            final(self).blink_key == blink,
            crate::calculator::row_views(final(self).row_key@) == crate::calculator::row_views(
                rows@,
            ),
            final(self).entries == entries,
            final(self).cached_w == w,
            final(self).cached_h == h,
    {
        let mut key: Vec<DisplayRow> = Vec::new();
        let mut i: usize = 0;
        while i < rows.len()
            invariant
                i <= rows.len(),
                key@.len() == i,
                forall|j: int| 0 <= j < i ==> (#[trigger] key@[j])@ == rows@[j]@,
            decreases rows.len() - i,
        {
            key.push(rows[i].clone());
            i = i + 1;
        }
        proof {
            assert(crate::calculator::row_views(key@) =~= crate::calculator::row_views(rows@));
        }
        self.win_style_key = win_style;
        self.row_key = key;
        self.blink_key = blink;
        self.entries = entries;
        self.cached_w = w;
        self.cached_h = h;
    }
}

/// A cache is valid for the rows that it was made of, as long as no length of
/// their styles is "not a number".
pub proof fn lemma_rebuilt_is_valid<E>(
    cache: TextCache<E>,
    rows: Seq<DisplayRow>,
    blink: bool,
    win_style: Option<RenderStyle>,
)
    requires
        cache.win_style_key == win_style,
        cache.blink_key == blink,
        crate::calculator::row_views(cache.row_key@) == crate::calculator::row_views(rows),
        same_styles(win_style, win_style),
        forall|i: int| 0 <= i < rows.len() ==> same_styles((#[trigger] rows[i]).style, rows[i].style),
    ensures
        cache.matches_key(rows, blink, win_style),
{
    let a: Seq<RowView> = crate::calculator::row_views(cache.row_key@);
    let b: Seq<RowView> = crate::calculator::row_views(rows);
    assert(a.len() == cache.row_key@.len());
    assert(b.len() == rows.len());
    assert forall|i: int| 0 <= i < rows.len() implies same_row(
        #[trigger] rows[i],
        cache.row_key@[i],
    ) by {
        assert(a[i] == cache.row_key@[i]@);
        assert(b[i] == rows[i]@);
        assert(same_styles(rows[i].style, rows[i].style));
    }
}

/// The colour that the row's style names, or else the window's.
pub open spec fn named_or(own: Option<OverlayColor>, win: OverlayColor) -> OverlayColor {
    if own is Some {
        own->0
    } else {
        win
    }
}

/// The pieces of a row, one by one: the label, then the value and the unit while
/// the row is lit, each after its shadow, which stands two pixels to the right and
/// below, and none for an empty text. All stand on the line of the row.
pub proof fn lemma_pieces_of_row(
    win: ResolvedStyle,
    row: DisplayRow,
    i: nat,
    w: RowWidths,
    label: u32,
    value: u32,
    blink: bool,
)
    ensures
        ({
            let ps = row_pieces(win, row, i, w, label, value, blink);
            let y: u32 = px_sum(win.pad_y.bits, px_product(px_whole(i), win.line_height.bits));
            let shown: bool = row.color@ != "crit"@ || blink;
            let a: int = if row.label@.len() > 0 {
                2
            } else {
                0
            };
            let b: int = if shown && row.value_str@.len() > 0 {
                2
            } else {
                0
            };
            let c: int = if shown && row.unit@.len() > 0 {
                2
            } else {
                0
            };
            let left: u32 = px_sum(px_sum(win.pad_x.bits, label), win.col_gap.bits);
            &&& ps.len() == a + b + c
            &&& a > 0 ==> ps[0].text == row.label@ && ps[1].text == row.label@ && ps[1].x
                == win.pad_x.bits
            &&& b > 0 ==> ps[a].text == row.value_str@ && ps[a + 1].text == row.value_str@ && ps[a
                + 1].x == px_sum(left, px_larger(px_difference(value, w.value.bits), 0))
            &&& c > 0 ==> ps[a + b].text == row.unit@ && ps[a + b + 1].text == row.unit@ && ps[a + b
                + 1].x == px_sum(px_sum(left, value), win.col_gap.bits)
            &&& forall|k: int| #![trigger ps[k]]
                0 <= k < ps.len() && k % 2 == 1 ==> ps[k].y == y && shadow_of(ps[k - 1], ps[k])
        }),
{
    let s = row_style(win, row);
    let y: u32 = px_sum(win.pad_y.bits, px_product(px_whole(i), win.line_height.bits));
    let main: OverlayColor = token_color(s, row.color@);
    let left: u32 = value_left(win, label);
    let vx: u32 = px_sum(left, px_larger(px_difference(value, w.value.bits), 0));
    let ux: u32 = px_sum(px_sum(left, value), win.col_gap.bits);
    let first: OverlayColor = if row.color@ == "value"@ || row.color@.len() == 0 {
        s.c_label
    } else {
        main
    };
    let of_label: Seq<EntryView> = if row.label@.len() > 0 {
        shadowed(row.label@, win.pad_x.bits, y, first, s.c_shadow)
    } else {
        seq![]
    };
    let of_value: Seq<EntryView> = if lit(row, blink) && row.value_str@.len() > 0 {
        shadowed(row.value_str@, vx, y, main, s.c_shadow)
    } else {
        seq![]
    };
    let of_unit: Seq<EntryView> = if lit(row, blink) && row.unit@.len() > 0 {
        shadowed(row.unit@, ux, y, s.c_unit, s.c_shadow)
    } else {
        seq![]
    };
    assert(row_pieces(win, row, i, w, label, value, blink) == of_label + of_value + of_unit);
    lemma_pair(row.label@, win.pad_x.bits, y, first, s.c_shadow);
    lemma_pair(row.value_str@, vx, y, main, s.c_shadow);
    lemma_pair(row.unit@, ux, y, s.c_unit, s.c_shadow);
    lemma_three_texts(
        of_label,
        of_value,
        of_unit,
        row.label@,
        row.value_str@,
        row.unit@,
        win.pad_x.bits,
        vx,
        ux,
        y,
    );
}

/// Whether there is a text at `x` and `y` with its shadow before it.
spec fn text_pair(p: Seq<EntryView>, text: Seq<char>, x: u32, y: u32) -> bool {
    &&& p.len() == 2
    &&& p[1].text == text && p[1].x == x && p[1].y == y
    &&& shadow_of(p[0], p[1])
}

/// Whether a piece is the shadow of another: the same text, two pixels to the
/// right and below.
pub open spec fn shadow_of(a: EntryView, b: EntryView) -> bool {
    a.text == b.text && a.x == px_sum(b.x, 0x4000_0000) && a.y == px_sum(b.y, 0x4000_0000)
}

/// A text with its shadow.
proof fn lemma_pair(text: Seq<char>, x: u32, y: u32, c: OverlayColor, shadow: OverlayColor)
    ensures
        text_pair(shadowed(text, x, y, c, shadow), text, x, y),
{
}

/// Three texts with their shadows, one after the other, each where it is there.
proof fn lemma_three_texts(
    p: Seq<EntryView>,
    q: Seq<EntryView>,
    r: Seq<EntryView>,
    t1: Seq<char>,
    t2: Seq<char>,
    t3: Seq<char>,
    x1: u32,
    x2: u32,
    x3: u32,
    y: u32,
)
    requires
        p.len() == 0 || text_pair(p, t1, x1, y),
        q.len() == 0 || text_pair(q, t2, x2, y),
        r.len() == 0 || text_pair(r, t3, x3, y),
    ensures
        ({
            let all = p + q + r;
            let a: int = p.len() as int;
            let b: int = q.len() as int;
            &&& all.len() == a + b + r.len()
            &&& a > 0 ==> all[0].text == t1 && all[1].text == t1 && all[1].x == x1
            &&& b > 0 ==> all[a].text == t2 && all[a + 1].text == t2 && all[a + 1].x == x2
            &&& r.len() > 0 ==> all[a + b].text == t3 && all[a + b + 1].text == t3 && all[a + b
                + 1].x == x3
            &&& forall|k: int| #![trigger all[k]]
                0 <= k < all.len() && k % 2 == 1 ==> all[k].y == y && shadow_of(all[k - 1], all[k])
        }),
{
    let all = p + q + r;
    let a: int = p.len() as int;
    let b: int = q.len() as int;
    assert forall|k: int| #![trigger all[k]] 0 <= k < all.len() && k % 2 == 1 implies all[k].y == y
        && shadow_of(all[k - 1], all[k]) by {
        if k < a {
            assert(all[k] == p[k] && all[k - 1] == p[k - 1]);
        } else if k < a + b {
            assert(all[k] == q[k - a] && all[k - 1] == q[k - 1 - a]);
        } else {
            assert(all[k] == r[k - a - b] && all[k - 1] == r[k - 1 - a - b]);
        }
    }
}

/// The colours of a row: its own style counts before the window's, for the
/// shadows, the unit, the label of a plain row, and for the token that the row
/// has.
pub proof fn lemma_colors_of_row(
    win: ResolvedStyle,
    row: DisplayRow,
    i: nat,
    w: RowWidths,
    label: u32,
    value: u32,
    blink: bool,
)
    ensures
        ({
            let ps = row_pieces(win, row, i, w, label, value, blink);
            let own: RenderStyle = if row.style is Some {
                row.style->0
            } else {
                crate::defs::no_style()
            };
            let shown: bool = row.color@ != "crit"@ || blink;
            let a: int = if row.label@.len() > 0 {
                2
            } else {
                0
            };
            let b: int = if shown && row.value_str@.len() > 0 {
                2
            } else {
                0
            };
            let plain: bool = row.color@ == "value"@ || row.color@.len() == 0;
            &&& forall|k: int| #![trigger ps[k]]
                0 <= k < ps.len() && k % 2 == 0 ==> ps[k].color == named_or(
                    own.c_shadow,
                    win.c_shadow,
                )
            &&& a > 0 && plain ==> ps[1].color == named_or(own.c_label, win.c_label)
            &&& a > 0 && row.color@ == "warn"@ ==> ps[1].color == named_or(own.c_warn, win.c_warn)
            &&& a > 0 && row.color@ == "crit"@ ==> ps[1].color == named_or(own.c_crit, win.c_crit)
            &&& a > 0 && row.color@ == "good"@ ==> ps[1].color == named_or(own.c_good, win.c_good)
            &&& a > 0 && row.color@ == "info"@ ==> ps[1].color == named_or(own.c_info, win.c_info)
            &&& b > 0 && row.color@ == "value"@ ==> ps[a + 1].color == named_or(
                own.c_value,
                named_or(own.c_label, win.c_value),
            )
            &&& b > 0 && row.color@.len() == 0 ==> ps[a + 1].color == named_or(
                own.c_label,
                win.c_label,
            )
            &&& b > 0 && row.color@ == "warn"@ ==> ps[a + 1].color == named_or(
                own.c_warn,
                win.c_warn,
            )
            &&& b > 0 && row.color@ == "crit"@ ==> ps[a + 1].color == named_or(
                own.c_crit,
                win.c_crit,
            )
            &&& b > 0 && row.color@ == "good"@ ==> ps[a + 1].color == named_or(
                own.c_good,
                win.c_good,
            )
            &&& b > 0 && row.color@ == "info"@ ==> ps[a + 1].color == named_or(
                own.c_info,
                win.c_info,
            )
            &&& shown && row.unit@.len() > 0 ==> ps[a + b + 1].color == named_or(
                own.c_unit,
                win.c_unit,
            )
        }),
{
    crate::style::lemma_token_names();
    lemma_colors_of_pieces(win, row, i, w, label, value, blink);
}

/// The colours of the pieces of a row in terms of the row's style.
proof fn lemma_colors_of_pieces(
    win: ResolvedStyle,
    row: DisplayRow,
    i: nat,
    w: RowWidths,
    label: u32,
    value: u32,
    blink: bool,
)
    ensures
        ({
            let ps = row_pieces(win, row, i, w, label, value, blink);
            let s = row_style(win, row);
            let a: int = if row.label@.len() > 0 {
                2
            } else {
                0
            };
            let b: int = if lit(row, blink) && row.value_str@.len() > 0 {
                2
            } else {
                0
            };
            let c: int = if lit(row, blink) && row.unit@.len() > 0 {
                2
            } else {
                0
            };
            let plain: bool = row.color@ == "value"@ || row.color@.len() == 0;
            &&& ps.len() == a + b + c
            &&& forall|k: int| #![trigger ps[k]]
                0 <= k < ps.len() && k % 2 == 0 ==> ps[k].color == s.c_shadow
            &&& a > 0 ==> ps[1].color == if plain {
                s.c_label
            } else {
                token_color(s, row.color@)
            }
            &&& b > 0 ==> ps[a + 1].color == token_color(s, row.color@)
            &&& c > 0 ==> ps[a + b + 1].color == s.c_unit
        }),
{
    let s = row_style(win, row);
    let y: u32 = px_sum(win.pad_y.bits, px_product(px_whole(i), win.line_height.bits));
    let main: OverlayColor = token_color(s, row.color@);
    let plain: bool = row.color@ == "value"@ || row.color@.len() == 0;
    let left: u32 = value_left(win, label);
    let first: OverlayColor = if plain {
        s.c_label
    } else {
        main
    };
    let of_label: Seq<EntryView> = if row.label@.len() > 0 {
        shadowed(row.label@, win.pad_x.bits, y, first, s.c_shadow)
    } else {
        seq![]
    };
    let of_value: Seq<EntryView> = if lit(row, blink) && row.value_str@.len() > 0 {
        shadowed(
            row.value_str@,
            px_sum(left, px_larger(px_difference(value, w.value.bits), 0)),
            y,
            main,
            s.c_shadow,
        )
    } else {
        seq![]
    };
    let of_unit: Seq<EntryView> = if lit(row, blink) && row.unit@.len() > 0 {
        shadowed(
            row.unit@,
            px_sum(px_sum(left, value), win.col_gap.bits),
            y,
            s.c_unit,
            s.c_shadow,
        )
    } else {
        seq![]
    };
    assert(row_pieces(win, row, i, w, label, value, blink) == of_label + of_value + of_unit);
    lemma_three_pairs(of_label, of_value, of_unit, first, main, s.c_unit, s.c_shadow);
}

/// Whether there is a text in the colour `c` with a shadow in the colour `shadow`,
/// or none.
spec fn pair_or_none(p: Seq<EntryView>, c: OverlayColor, shadow: OverlayColor) -> bool {
    p.len() == 0 || (p.len() == 2 && p[0].color == shadow && p[1].color == c)
}

/// The colours of three texts, one after the other.
proof fn lemma_three_pairs(
    p: Seq<EntryView>,
    q: Seq<EntryView>,
    r: Seq<EntryView>,
    c: OverlayColor,
    d: OverlayColor,
    e: OverlayColor,
    shadow: OverlayColor,
)
    requires
        pair_or_none(p, c, shadow),
        pair_or_none(q, d, shadow),
        pair_or_none(r, e, shadow),
    ensures
        ({
            let all = p + q + r;
            &&& all.len() == p.len() + q.len() + r.len()
            &&& forall|k: int| #![trigger all[k]]
                0 <= k < all.len() && k % 2 == 0 ==> all[k].color == shadow
            &&& p.len() > 0 ==> all[1].color == c
            &&& q.len() > 0 ==> all[(p.len() + 1) as int].color == d
            &&& r.len() > 0 ==> all[(p.len() + q.len() + 1) as int].color == e
        }),
{
}

/// The pieces of a window are those of its rows, each at its own place, one row
/// after the other.
pub proof fn lemma_pieces_of_rows(
    win: ResolvedStyle,
    rows: Seq<DisplayRow>,
    w: Seq<RowWidths>,
    label: u32,
    value: u32,
    blink: bool,
    i: int,
)
    requires
        rows.len() == w.len(),
        0 <= i < rows.len(),
    ensures
        ({
            let all = all_pieces(win, rows, w, label, value, blink);
            let from = all_pieces(win, rows.take(i), w.take(i), label, value, blink).len() as int;
            let own = row_pieces(win, rows[i], i as nat, w[i], label, value, blink);
            &&& from + own.len() <= all.len()
            &&& own == all.subrange(from, from + own.len())
        }),
    decreases rows.len(),
{
    let n = rows.len() - 1;
    let front = all_pieces(win, rows.drop_last(), w.drop_last(), label, value, blink);
    let all = all_pieces(win, rows, w, label, value, blink);
    let own = row_pieces(win, rows[i], i as nat, w[i], label, value, blink);
    if i == n {
        assert(rows.take(i) =~= rows.drop_last());
        assert(w.take(i) =~= w.drop_last());
        assert(own =~= all.subrange(front.len() as int, (front.len() + own.len()) as int));
    } else {
        lemma_pieces_of_rows(win, rows.drop_last(), w.drop_last(), label, value, blink, i);
        assert(rows.drop_last().take(i) =~= rows.take(i));
        assert(w.drop_last().take(i) =~= w.take(i));
        let from = all_pieces(win, rows.take(i), w.take(i), label, value, blink).len() as int;
        assert(own =~= all.subrange(from, from + own.len()));
    }
}

/// No text of a column is wider than the column, and the column is as wide as
/// one of them, or nothing.
pub proof fn lemma_columns_are_wide_enough(rows: Seq<DisplayRow>, w: Seq<RowWidths>)
    requires
        rows.len() == w.len(),
        forall|i: int|
            0 <= i < w.len() ==> !px_nan((#[trigger] w[i]).label.bits) && !px_nan(w[i].value.bits)
                && !px_nan(w[i].unit.bits),
    ensures
        !px_nan(label_column(rows, w)) && !px_less(label_column(rows, w), 0),
        !px_nan(value_column(rows, w)) && !px_less(value_column(rows, w), 0),
        !px_nan(unit_column(rows, w)) && !px_less(unit_column(rows, w), 0),
        forall|i: int| #![trigger rows[i]]
            0 <= i < rows.len() ==> {
                &&& rows[i].label@.len() > 0 ==> !px_less(label_column(rows, w), w[i].label.bits)
                &&& rows[i].value_str@.len() > 0 ==> !px_less(
                    value_column(rows, w),
                    w[i].value.bits,
                )
                &&& rows[i].unit@.len() > 0 ==> !px_less(unit_column(rows, w), w[i].unit.bits)
            },
        label_column(rows, w) == 0 || exists|i: int|
            0 <= i < rows.len() && (#[trigger] rows[i]).label@.len() > 0 && w[i].label.bits
                == label_column(rows, w),
        value_column(rows, w) == 0 || exists|i: int|
            0 <= i < rows.len() && (#[trigger] rows[i]).value_str@.len() > 0 && w[i].value.bits
                == value_column(rows, w),
        unit_column(rows, w) == 0 || exists|i: int|
            0 <= i < rows.len() && (#[trigger] rows[i]).unit@.len() > 0 && w[i].unit.bits
                == unit_column(rows, w),
    decreases rows.len(),
{
    if rows.len() > 0 {
        let n = rows.len() - 1;
        let fr = rows.drop_last();
        let fw = w.drop_last();
        assert forall|i: int| 0 <= i < fw.len() implies !px_nan((#[trigger] fw[i]).label.bits)
            && !px_nan(fw[i].value.bits) && !px_nan(fw[i].unit.bits) by {
            assert(fw[i] == w[i]);
        }
        lemma_columns_are_wide_enough(fr, fw);
        assert(w[n] == w.last() && rows[n] == rows.last());
        assert(!px_nan(w[n].label.bits));
        assert forall|i: int| #![trigger rows[i]] 0 <= i < rows.len() implies {
            &&& rows[i].label@.len() > 0 ==> !px_less(label_column(rows, w), w[i].label.bits)
            &&& rows[i].value_str@.len() > 0 ==> !px_less(value_column(rows, w), w[i].value.bits)
            &&& rows[i].unit@.len() > 0 ==> !px_less(unit_column(rows, w), w[i].unit.bits)
        } by {
            if i < n {
                assert(fr[i] == rows[i] && fw[i] == w[i]);
            }
        }
        if label_column(rows, w) != 0 && label_column(rows, w) == label_column(fr, fw) {
            let i = choose|i: int|
                0 <= i < fr.len() && (#[trigger] fr[i]).label@.len() > 0 && fw[i].label.bits
                    == label_column(fr, fw);
            assert(rows[i] == fr[i] && w[i] == fw[i]);
        }
        if value_column(rows, w) != 0 && value_column(rows, w) == value_column(fr, fw) {
            let i = choose|i: int|
                0 <= i < fr.len() && (#[trigger] fr[i]).value_str@.len() > 0 && fw[i].value.bits
                    == value_column(fr, fw);
            assert(rows[i] == fr[i] && w[i] == fw[i]);
        }
        if unit_column(rows, w) != 0 && unit_column(rows, w) == unit_column(fr, fw) {
            let i = choose|i: int|
                0 <= i < fr.len() && (#[trigger] fr[i]).unit@.len() > 0 && fw[i].unit.bits
                    == unit_column(fr, fw);
            assert(rows[i] == fr[i] && w[i] == fw[i]);
        }
    }
}

/// The size of a window: padding on either side of the columns, a gap between
/// labels and values, one more gap where there are units; the height of its rows,
/// of one at least, and padding above and below. No side is zero.
pub proof fn lemma_size_of_window(
    s: ResolvedStyle,
    label: u32,
    value: u32,
    unit: u32,
    units: bool,
    n: nat,
)
    ensures
        needed_width(s, label, value, unit, units) >= 1,
        needed_height(s, n) >= 1,
        needed_height(s, 0) == needed_height(s, 1),
        ({
            let inner: u32 = px_sum(px_sum(px_sum(s.pad_x.bits, label), s.col_gap.bits), value);
            let tail: u32 = if units {
                px_sum(s.col_gap.bits, unit)
            } else {
                0
            };
            let wide: nat = px_ceiling(px_sum(px_sum(inner, tail), s.pad_x.bits));
            wide > 0 ==> needed_width(s, label, value, unit, units) == wide
        }),
        ({
            let high: nat = px_ceiling(
                px_sum(
                    px_sum(s.pad_y.bits, px_product(px_whole(n), s.line_height.bits)),
                    s.pad_y.bits,
                ),
            );
            n > 0 && high > 0 ==> needed_height(s, n) == high
        }),
{
}

/// A blinking text is on for a quarter of a second and off for the next.
pub proof fn lemma_blinking(ms: nat)
    ensures
        blinks_on(0),
        blinks_on(ms + 250) == !blinks_on(ms),
        blinks_on(ms + 500) == blinks_on(ms),
        ms % 250 != 249 ==> blinks_on(ms + 1) == blinks_on(ms),
{
}

/// Kept texts are used again only for the same rows: a change of any text, colour
/// or style of a row, of the number of rows, of the blinking or of the window's
/// style makes them invalid.
pub proof fn lemma_changes_are_noticed<E>(
    cache: TextCache<E>,
    rows: Seq<DisplayRow>,
    blink: bool,
    win_style: Option<RenderStyle>,
    i: int,
)
    requires
        cache.matches_key(rows, blink, win_style),
    ensures
        blink == cache.blink_key,
        rows.len() == cache.row_key@.len(),
        same_styles(win_style, cache.win_style_key),
        0 <= i < rows.len() ==> {
            &&& rows[i].label@ == cache.row_key@[i].label@
            &&& rows[i].value_str@ == cache.row_key@[i].value_str@
            &&& rows[i].unit@ == cache.row_key@[i].unit@
            &&& rows[i].color@ == cache.row_key@[i].color@
            &&& same_styles(rows[i].style, cache.row_key@[i].style)
        },
{
    if 0 <= i < rows.len() {
        assert(same_row(rows[i], cache.row_key@[i]));
    }
}

/// A window has the lengths and colours that its style names, and where it names
/// none, letters of 32 pixels in lines of 40 with 8, 10 and 12 pixels around them,
/// white labels, grey units, yellow warnings, red where it is critical, green, blue
/// and a black shadow.
pub proof fn lemma_style_of_window(win: ResolvedStyle, own: Option<RenderStyle>, p: Px, c: OverlayColor)
    requires
        window_style_is(win, own),
    ensures
        own is None || (own->0).font_size is None ==> px_value(win.font_size.bits) == 32 * pow2(149),
        own is Some && (own->0).font_size == Some(p) ==> win.font_size == p,
        own is None || (own->0).line_height is None ==> px_value(win.line_height.bits) == 40 * pow2(149),
        own is Some && (own->0).line_height == Some(p) ==> win.line_height == p,
        own is None || (own->0).pad_x is None ==> px_value(win.pad_x.bits) == 8 * pow2(149),
        own is Some && (own->0).pad_x == Some(p) ==> win.pad_x == p,
        own is None || (own->0).pad_y is None ==> px_value(win.pad_y.bits) == 10 * pow2(149),
        own is Some && (own->0).pad_y == Some(p) ==> win.pad_y == p,
        own is None || (own->0).col_gap is None ==> px_value(win.col_gap.bits) == 12 * pow2(149),
        own is Some && (own->0).col_gap == Some(p) ==> win.col_gap == p,
        own is None || (own->0).c_label is None ==> win.c_label.0@ == seq![255u8, 255, 255, 255],
        own is Some && (own->0).c_label == Some(c) ==> win.c_label == c,
        own is None || (own->0).c_unit is None ==> win.c_unit.0@ == seq![192u8, 192, 192, 255],
        own is Some && (own->0).c_unit == Some(c) ==> win.c_unit == c,
        own is None || (own->0).c_warn is None ==> win.c_warn.0@ == seq![220u8, 220, 60, 255],
        own is Some && (own->0).c_warn == Some(c) ==> win.c_warn == c,
        own is None || (own->0).c_crit is None ==> win.c_crit.0@ == seq![220u8, 60, 60, 255],
        own is Some && (own->0).c_crit == Some(c) ==> win.c_crit == c,
        own is None || (own->0).c_good is None ==> win.c_good.0@ == seq![80u8, 200, 120, 255],
        own is Some && (own->0).c_good == Some(c) ==> win.c_good == c,
        own is None || (own->0).c_info is None ==> win.c_info.0@ == seq![80u8, 160, 220, 255],
        own is Some && (own->0).c_info == Some(c) ==> win.c_info == c,
        own is None || (own->0).c_shadow is None ==> win.c_shadow.0@ == seq![0u8, 0, 0, 160],
        own is Some && (own->0).c_shadow == Some(c) ==> win.c_shadow == c,
        own is None || ((own->0).c_value is None && (own->0).c_label is None) ==> win.c_value.0@
            == seq![255u8, 255, 255, 255],
        own is Some && (own->0).c_value == Some(c) ==> win.c_value == c,
        own is Some && (own->0).c_value is None && (own->0).c_label == Some(c) ==> win.c_value == c,
{
    let base = choose|base: ResolvedStyle|
        default_lengths(base) && #[trigger] default_colors(base) && win == (match own {
            Some(s) => styled(base, s),
            None => base,
        });
    lemma_default_pixels(base);
}

} // verus!
