//! The sizes and formats of what is drawn on.
use vstd::prelude::*;

verus! {

/// The alignment of the rows of a buffer that a texture is copied to, in bytes.
pub const ROW_ALIGN: u32 = 256;

/// The least multiple of the alignment that holds a row of `width` pixels of
/// four bytes.
pub open spec fn padded_row(width: nat) -> nat {
    (width * 4 + 255) / 256 * 256
}

/// The bytes of a row of `width` pixels in a buffer.
pub fn aligned_bpr(width: u32) -> (r: u32)
    requires
        width * 4 + 255 <= u32::MAX,
    ensures
        r == padded_row(width as nat),
        r % ROW_ALIGN == 0,
        width * 4 <= r < width * 4 + ROW_ALIGN,
{
    (width * 4 + 255) / 256 * 256
}

/// The size of an offscreen target.
#[derive(Clone, Copy, Debug, PartialEq, Eq, Structural)]
pub struct TargetSize {
    pub width: u32,
    pub height: u32,
    /// The bytes of a row in the buffer.
    pub bytes_per_row: u32,
    /// The bytes of the buffer.
    pub buffer_size: u64,
}

/// `n`, or one.
pub open spec fn one_at_least(n: u32) -> u32 {
    if n == 0 {
        1
    } else {
        n
    }
}

/// Whether the buffer of a target of this size has a size.
pub open spec fn target_fits(width: u32, height: u32) -> bool {
    &&& one_at_least(width) * 4 + 255 <= u32::MAX
    &&& padded_row(one_at_least(width) as nat) * one_at_least(height) <= u32::MAX
}

/// Whether the buffer of a target of this size has a size.
pub fn fits(width: u32, height: u32) -> (r: bool)
    ensures
        r == target_fits(width, height),
{
    let w: u64 = if width == 0 {
        1
    } else {
        width as u64
    };
    let h: u64 = if height == 0 {
        1
    } else {
        height as u64
    };
    if w * 4 + 255 > u32::MAX as u64 {
        return false;
    }
    let padded: u64 = (w * 4 + 255) / 256 * 256;
    proof {
        assert(padded == padded_row(one_at_least(width) as nat));
        assert(padded * h <= 0x1_0000_0000 * 0x1_0000_0000 - 1) by (nonlinear_arith)
            requires
                padded <= 0xffff_ffff,
                h <= 0xffff_ffff,
        ;
    }
    padded * h <= u32::MAX as u64
}

/// The size of a target, at least one pixel each way.
pub fn target_size(width: u32, height: u32) -> (r: TargetSize)
    requires
        target_fits(width, height),
    ensures
        r.width == one_at_least(width),
        r.height == one_at_least(height),
        r.bytes_per_row == padded_row(r.width as nat),
        r.buffer_size == r.bytes_per_row * r.height,
{
    let w: u32 = if width == 0 {
        1
    } else {
        width
    };
    let h: u32 = if height == 0 {
        1
    } else {
        height
    };
    let bpr: u32 = aligned_bpr(w);
    TargetSize { width: w, height: h, bytes_per_row: bpr, buffer_size: (bpr * h) as u64 }
}

/// Whether a buffer holds `height` rows of `row` bytes, `padded` bytes apart.
pub open spec fn holds_rows(len: nat, row: nat, padded: nat, height: nat) -> bool {
    height > 0 ==> (height - 1) * padded + row <= len
}

/// The first `height` rows of a buffer without the padding between them.
pub open spec fn unpadded(mapped: Seq<u8>, row: int, padded: int, height: nat) -> Seq<u8>
    decreases height,
{
    if height == 0 {
        seq![]
    } else {
        let at: int = (height - 1) * padded;
        unpadded(mapped, row, padded, (height - 1) as nat) + mapped.subrange(at, at + row)
    }
}

/// The rows of a buffer without the padding between them.
pub fn unpad_rows(mapped: &[u8], row: usize, padded: usize, height: usize) -> (pixels: Vec<u8>)
    requires
        row <= padded,
        holds_rows(mapped@.len(), row as nat, padded as nat, height as nat),
    ensures
        pixels@ == unpadded(mapped@, row as int, padded as int, height as nat),
{
    let n: usize = mapped.len();
    let mut pixels: Vec<u8> = Vec::new();
    let mut r: usize = 0;
    let mut at: usize = 0;
    proof {
        assert(0 * padded == 0);
    }
    while r < height
        invariant
            r <= height,
            row <= padded,
            n == mapped@.len(),
            holds_rows(mapped@.len(), row as nat, padded as nat, height as nat),
            r < height ==> at == r * padded,
            pixels@ == unpadded(mapped@, row as int, padded as int, r as nat),
        decreases height - r,
    {
        proof {
            assert(r * padded + row <= mapped@.len()) by (nonlinear_arith)
                requires
                    (height - 1) * padded + row <= mapped@.len(),
                    r <= height - 1,
                    padded >= 0,
            ;
        }
        let ghost before = pixels@;
        let mut c: usize = 0;
        proof {
            assert(pixels@ =~= before + mapped@.subrange(at as int, at as int));
        }
        while c < row
            invariant
                c <= row,
                n == mapped@.len(),
                at + row <= mapped@.len(),
                pixels@ == before + mapped@.subrange(at as int, at + c),
            decreases row - c,
        {
            pixels.push(mapped[at + c]);
            c = c + 1;
            proof {
                assert(pixels@ =~= before + mapped@.subrange(at as int, at + c));
            }
        }
        r = r + 1;
        if r < height {
            proof {
                assert(r * padded == (r - 1) * padded + padded) by (nonlinear_arith);
                assert(r * padded <= (height - 1) * padded) by (nonlinear_arith)
                    requires
                        r <= height - 1,
                        padded >= 0,
                ;
            }
            at = at + padded;
        }
    }
    pixels
}

/// How the alpha of a surface is put over what lies behind it.
#[derive(Clone, Copy, Debug, PartialEq, Eq, Structural)]
pub enum AlphaMode {
    Auto,
    Opaque,
    PreMultiplied,
    PostMultiplied,
    Inherit,
}

/// The first of the wanted modes that is available, or the automatic one.
pub open spec fn best_alpha(modes: Seq<AlphaMode>) -> AlphaMode {
    if modes.contains(AlphaMode::PreMultiplied) {
        AlphaMode::PreMultiplied
    } else if modes.contains(AlphaMode::PostMultiplied) {
        AlphaMode::PostMultiplied
    } else if modes.contains(AlphaMode::Inherit) {
        AlphaMode::Inherit
    } else {
        AlphaMode::Auto
    }
}

/// Whether `m` is among `modes`.
fn has_mode(modes: &Vec<AlphaMode>, m: AlphaMode) -> (r: bool)
    ensures
        r == modes@.contains(m),
{
    let mut i: usize = 0;
    while i < modes.len()
        invariant
            i <= modes.len(),
            forall|j: int| 0 <= j < i ==> modes@[j] != m,
        decreases modes.len() - i,
    {
        if modes[i] == m {
            return true;
        }
        i = i + 1;
    }
    false
}

/// The alpha mode of a surface.
pub fn pick_alpha_mode(modes: &Vec<AlphaMode>) -> (r: AlphaMode)
    ensures
        r == best_alpha(modes@),
{
    if has_mode(modes, AlphaMode::PreMultiplied) {
        AlphaMode::PreMultiplied
    } else if has_mode(modes, AlphaMode::PostMultiplied) {
        AlphaMode::PostMultiplied
    } else if has_mode(modes, AlphaMode::Inherit) {
        AlphaMode::Inherit
    } else {
        AlphaMode::Auto
    }
}

/// The place of the first format with the standard transfer function, or of the
/// first format.
pub fn pick_format(is_srgb: &Vec<bool>) -> (i: usize)
    requires
        is_srgb@.len() > 0,
    ensures
        i < is_srgb@.len(),
        is_srgb@.contains(true) ==> is_srgb@[i as int],
        is_srgb@.contains(true) ==> forall|j: int| 0 <= j < i ==> !is_srgb@[j],
        !is_srgb@.contains(true) ==> i == 0,
{
    let mut i: usize = 0;
    while i < is_srgb.len()
        invariant
            i <= is_srgb.len(),
            forall|j: int| 0 <= j < i ==> !is_srgb@[j],
        decreases is_srgb.len() - i,
    {
        if is_srgb[i] {
            proof {
                assert(is_srgb@.contains(true));
            }
            return i;
        }
        i = i + 1;
    }
    0
}

/// The new size of a surface; a size without extent changes nothing.
pub fn resized(width: u32, height: u32) -> (r: Option<(u32, u32)>)
    ensures
        r == (if width == 0 || height == 0 {
            None
        } else {
            Some((width, height))
        }),
{
    if width == 0 || height == 0 {
        None
    } else {
        Some((width, height))
    }
}

/// Without the padding the pixels are those of the rows, byte by byte.
pub proof fn lemma_pixels_of_rows(mapped: Seq<u8>, row: int, padded: int, height: nat, y: int, x: int)
    requires
        0 <= y < height,
        0 <= x < row <= padded,
        (height - 1) * padded + row <= mapped.len(),
    ensures
        unpadded(mapped, row, padded, height).len() == height * row,
        0 <= y * row + x < height * row,
        unpadded(mapped, row, padded, height)[y * row + x] == mapped[y * padded + x],
    decreases height,
{
    let h: nat = (height - 1) as nat;
    let at: int = h * padded;
    lemma_unpadded_length(mapped, row, padded, height);
    if h > 0 {
        assert((h - 1) * padded + row <= mapped.len()) by (nonlinear_arith)
            requires
                h * padded + row <= mapped.len(),
                padded >= 0,
        ;
    }
    lemma_unpadded_length(mapped, row, padded, h);
    assert(0 <= at) by (nonlinear_arith)
        requires
            at == h * padded,
            padded >= 0,
    ;
    assert(0 <= y * row + x < height * row) by (nonlinear_arith)
        requires
            0 <= y,
            y + 1 <= height,
            0 <= x < row,
    ;
    let all = unpadded(mapped, row, padded, height);
    let front = unpadded(mapped, row, padded, h);
    if y == h {
        assert(all[y * row + x] == mapped.subrange(at, at + row)[x]);
    } else {
        assert(y * row + x < h * row) by (nonlinear_arith)
            requires
                y + 1 <= h,
                0 <= x < row,
        ;
        lemma_pixels_of_rows(mapped, row, padded, h, y, x);
        assert(all[y * row + x] == front[y * row + x]);
    }
}

/// The number of bytes of the rows.
proof fn lemma_unpadded_length(mapped: Seq<u8>, row: int, padded: int, height: nat)
    requires
        0 <= row <= padded,
        height > 0 ==> (height - 1) * padded + row <= mapped.len(),
    ensures
        unpadded(mapped, row, padded, height).len() == height * row,
    decreases height,
{
    if height > 0 {
        let h: nat = (height - 1) as nat;
        let at: int = h * padded;
        assert(0 <= at) by (nonlinear_arith)
            requires
                at == h * padded,
                padded >= 0,
        ;
        if h > 0 {
            assert((h - 1) * padded + row <= mapped.len()) by (nonlinear_arith)
                requires
                    h * padded + row <= mapped.len(),
                    padded >= 0,
            ;
        }
        lemma_unpadded_length(mapped, row, padded, h);
        assert(height * row == h * row + row) by (nonlinear_arith)
            requires
                height == h + 1,
        ;
    } else {
        assert(0 * row == 0);
    }
}

/// A row in a buffer is the least multiple of 256 bytes that holds its pixels of
/// four bytes each.
pub proof fn lemma_padded_row(width: nat)
    ensures
        padded_row(width) % 256 == 0,
        4 * width <= padded_row(width) < 4 * width + 256,
{
}

/// Of the modes that a surface offers one that lets the desktop through is
/// taken, premultiplied before postmultiplied before inherited.
pub proof fn lemma_best_alpha(modes: Seq<AlphaMode>)
    ensures
        modes.contains(AlphaMode::PreMultiplied) ==> best_alpha(modes) == AlphaMode::PreMultiplied,
        !modes.contains(AlphaMode::PreMultiplied) && modes.contains(AlphaMode::PostMultiplied)
            ==> best_alpha(modes) == AlphaMode::PostMultiplied,
        !modes.contains(AlphaMode::PreMultiplied) && !modes.contains(AlphaMode::PostMultiplied)
            && modes.contains(AlphaMode::Inherit) ==> best_alpha(modes) == AlphaMode::Inherit,
        best_alpha(modes) != AlphaMode::Opaque,
{
}

} // verus!
