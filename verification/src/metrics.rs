//! Measured character data handed to the line breaker, and the lookup of
//! the character shape that applies at a position.
//!
//! All lengths are in HWPUNIT (7200 per inch). The layout's defaults are given in pixels
//! and taken at the caller's pixel size `px_size`, the HWPUNIT in one pixel (75 at 96 dpi).
use vstd::prelude::*;
use crate::chars::LANG_COUNT;

verus! {

/// A pixel size the defaults can be taken at: at least one HWPUNIT, and small enough that the
/// 48-pixel tab interval fits in 32 bits.
pub open spec fn px_size_ok(px_size: u32) -> bool {
    0 < px_size <= 0x0555_5555
}

/// Font size used where a shape gives none: 12 px.
pub open spec fn default_font_size(px_size: u32) -> u32 {
    (12 * px_size) as u32
}

/// Tab stop interval used where a paragraph gives none: 48 px.
pub open spec fn default_tab_width(px_size: u32) -> u32 {
    (48 * px_size) as u32
}

/// Narrowest line width after an indent is taken off: 1 px.
pub open spec fn min_line_width(px_size: u32) -> int {
    px_size as int
}

/// The default font size, 12 px, at pixel size `px_size`.
pub fn default_font_size_of(px_size: u32) -> (r: u32)
    requires
        px_size_ok(px_size),
    ensures
        r == default_font_size(px_size),
        r == 12 * px_size,
{
    12 * px_size
}

/// The default tab interval, 48 px, at pixel size `px_size`.
pub fn default_tab_width_of(px_size: u32) -> (r: u32)
    requires
        px_size_ok(px_size),
    ensures
        r == default_tab_width(px_size),
        r == 48 * px_size,
{
    48 * px_size
}

/// Font size and advance width of one character under one language slot.
#[derive(Clone, Copy, Debug, PartialEq, Eq, Structural)]
pub struct GlyphMetric {
    pub font_size: u32,
    pub width: u32,
}

/// Metrics of one character under each of the language slots.
#[derive(Clone, Copy, Debug)]
pub struct CharMetrics {
    pub by_lang: [GlyphMetric; 7],
}

/// Font size of character `i` under language `lang`, the default where the shape gives none.
pub open spec fn font_at(m: Seq<CharMetrics>, i: int, lang: usize, px_size: u32) -> u32 {
    let f = m[i].by_lang@[lang as int].font_size;
    if f > 0 {
        f
    } else {
        default_font_size(px_size)
    }
}

/// Advance width of character `i` under language `lang`.
pub open spec fn width_at(m: Seq<CharMetrics>, i: int, lang: usize) -> u32 {
    m[i].by_lang@[lang as int].width
}

/// Font size of character `i` under language `lang`, the default where the shape gives none.
pub fn font_of(m: &[CharMetrics], i: usize, lang: usize, px_size: u32) -> (r: u32)
    requires
        i < m@.len(),
        lang < LANG_COUNT,
        px_size_ok(px_size),
    ensures
        r == font_at(m@, i as int, lang, px_size),
{
    let f = m[i].by_lang[lang].font_size;
    if f > 0 {
        f
    } else {
        default_font_size_of(px_size)
    }
}

/// Advance width of character `i` under language `lang`.
pub fn width_of(m: &[CharMetrics], i: usize, lang: usize) -> (r: u32)
    requires
        i < m@.len(),
        lang < LANG_COUNT,
    ensures
        r == width_at(m@, i as int, lang),
{
    m[i].by_lang[lang].width
}

/// A character shape that applies from UTF-16 position `start_pos` on.
#[derive(Clone, Copy, Debug, PartialEq, Eq, Structural)]
pub struct CharShapeRef {
    pub start_pos: u32,
    pub char_shape_id: u32,
}

/// The shape active at `pos`: the last of the leading run of shapes that start at or
/// before `pos`, the first shape where none does, and 0 where there is none.
pub open spec fn spec_active_shape_from(shapes: Seq<CharShapeRef>, k: int, pos: u32, active: u32) -> u32
    decreases shapes.len() - k,
{
    if k < 0 || k >= shapes.len() || shapes[k].start_pos > pos {
        active
    } else {
        spec_active_shape_from(shapes, k + 1, pos, shapes[k].char_shape_id)
    }
}

pub open spec fn spec_active_shape(shapes: Seq<CharShapeRef>, pos: u32) -> u32 {
    let first = if shapes.len() > 0 {
        shapes[0].char_shape_id
    } else {
        0
    };
    spec_active_shape_from(shapes, 0, pos, first)
}

/// The id of the character shape that applies at UTF-16 position `pos`, by this crate's
/// reading of shape runs (`spec_active_shape`): among the runs in order up to the first that
/// starts after `pos`, the last; the first run where none starts at or before `pos`; 0 with
/// no runs.
pub fn find_active_char_shape(char_shapes: &[CharShapeRef], pos: u32) -> (r: u32)
    ensures
        r == spec_active_shape(char_shapes@, pos),
{
    let mut active: u32 = if char_shapes.len() > 0 {
        char_shapes[0].char_shape_id
    } else {
        0
    };
    let mut k: usize = 0;
    while k < char_shapes.len()
        invariant
            k <= char_shapes@.len(),
            spec_active_shape_from(char_shapes@, k as int, pos, active) == spec_active_shape(
                char_shapes@,
                pos,
            ),
        decreases char_shapes@.len() - k,
    {
        if char_shapes[k].start_pos <= pos {
            active = char_shapes[k].char_shape_id;
            k = k + 1;
        } else {
            return active;
        }
    }
    active
}

/// UTF-16 position of character `i`: its offset where one is recorded, else `i` itself.
pub open spec fn spec_char_pos(offsets: Seq<u32>, i: int) -> u32 {
    if i < offsets.len() {
        offsets[i]
    } else {
        i as u32
    }
}

/// The character shape id of each of the first `text_len` characters.
pub fn char_shape_ids(text_len: usize, char_offsets: &[u32], char_shapes: &[CharShapeRef]) -> (ids:
    Vec<u32>)
    requires
        text_len <= u32::MAX,
    ensures
        ids@.len() == text_len,
        forall|i: int|
            0 <= i < text_len ==> #[trigger] ids@[i] == spec_active_shape(
                char_shapes@,
                spec_char_pos(char_offsets@, i),
            ),
{
    let mut ids: Vec<u32> = Vec::new();
    let mut i: usize = 0;
    while i < text_len
        invariant
            i <= text_len <= u32::MAX,
            ids@.len() == i,
            forall|j: int|
                0 <= j < i ==> #[trigger] ids@[j] == spec_active_shape(
                    char_shapes@,
                    spec_char_pos(char_offsets@, j),
                ),
        decreases text_len - i,
    {
        let pos: u32 = if i < char_offsets.len() {
            char_offsets[i]
        } else {
            i as u32
        };
        ids.push(find_active_char_shape(char_shapes, pos));
        i = i + 1;
    }
    ids
}

} // verus!
