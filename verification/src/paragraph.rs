//! Line segments of a paragraph: line spacing, and the reflow of a paragraph's lines after
//! its text or width changed.
use vstd::prelude::*;
use crate::metrics::{default_font_size, default_font_size_of, px_size_ok, CharMetrics, CharShapeRef};
use crate::tokenize::{span_end, span_start, spec_tokenize, tokenize_paragraph, tokens_tile, BreakToken, law_tokens_tile_text};
use crate::fill::{
    count_feeds, fill_lines, law_forced_breaks_match_line_feeds, law_lines_in_text_order,
    lines_chain, spec_fill_lines, tokens_usable, LineBreakResult,
};

verus! {

/// Tag given to generated line segments.
pub const DEFAULT_LINE_SEG_TAG: u32 = 0x0006_0000;
/// Line spacing of a paragraph without a style: 160 percent.
pub const DEFAULT_LINE_SPACING_PERCENT: i32 = 160;

/// Layout of one line of a paragraph. Lengths are HWPUNIT.
#[derive(Clone, Copy, Debug, PartialEq, Eq, Structural)]
pub struct LineSeg {
    /// UTF-16 position where the line starts.
    pub text_start: u32,
    /// Offset of the line's top from the top of the section.
    pub vertical_pos: i32,
    pub line_height: i32,
    pub text_height: i32,
    pub baseline_distance: i32,
    /// Extra space below the line, before the next one.
    pub line_spacing: i32,
    pub column_start: i32,
    pub segment_width: i32,
    pub tag: u32,
}

/// How a paragraph's line spacing value is read.
#[derive(Clone, Copy, Debug, PartialEq, Eq, Structural)]
pub enum LineSpacingType {
    /// Percent of the line height.
    Percent,
    /// Fixed pitch from line top to line top.
    Fixed,
    /// Space between lines only.
    SpaceOnly,
    /// Least pitch from line top to line top.
    Minimum,
}

/// The paragraph style values the line breaker reads.
#[derive(Clone, Copy, Debug)]
pub struct ParaStyle {
    pub line_spacing_type: LineSpacingType,
    /// Percent for `Percent`, HWPUNIT otherwise.
    pub line_spacing: i32,
    pub indent: i32,
    pub english_break_unit: u8,
    pub korean_break_unit: u8,
    pub default_tab_width: u32,
}

/// A paragraph: its characters, their UTF-16 positions, its character shapes and its lines.
#[derive(Debug)]
pub struct Paragraph {
    pub text: Vec<char>,
    pub char_offsets: Vec<u32>,
    pub char_shapes: Vec<CharShapeRef>,
    pub line_segs: Vec<LineSeg>,
    pub para_shape_id: u16,
}

pub open spec fn i32_range(x: int) -> bool {
    i32::MIN <= x <= i32::MAX
}

/// The spacing computation stays within 32 bits: fixed and least pitches are subtracted in `i32`.
pub open spec fn spacing_fits(ty: LineSpacingType, v: i32, lh: i32) -> bool {
    match ty {
        LineSpacingType::Fixed | LineSpacingType::Minimum => i32_range(v - lh),
        _ => true,
    }
}

/// Space below a line of height `lh`: the part of the percent pitch above 100%, the part of
/// a fixed or least pitch not taken by the line, or the given space; never negative.
pub open spec fn spec_line_spacing(ty: LineSpacingType, v: i32, lh: i32) -> int {
    match ty {
        LineSpacingType::Percent => {
            let p = lh * (v - 100);
            if p <= 0 {
                0
            } else if p / 100 > i32::MAX {
                i32::MAX as int
            } else {
                p / 100
            }
        },
        LineSpacingType::Fixed | LineSpacingType::Minimum => if v - lh > 0 {
            v - lh
        } else {
            0
        },
        LineSpacingType::SpaceOnly => v as int,
    }
}

/// Line spacing (HWPUNIT) of a line `line_height_hwp` high under the paragraph's spacing
/// setting.
pub fn compute_line_spacing_hwp(ls_type: LineSpacingType, ls_value: i32, line_height_hwp: i32) -> (r:
    i32)
    requires
        spacing_fits(ls_type, ls_value, line_height_hwp),
    ensures
        r == spec_line_spacing(ls_type, ls_value, line_height_hwp),
{
    match ls_type {
        LineSpacingType::Percent => {
            let a = line_height_hwp as i64;
            let b = (ls_value as i64) - 100;
            assert(-0x8000_0000 <= a <= 0x7fff_ffff && -0x8000_0064 <= b <= 0x7fff_ffff ==> -0x7fff_ffff_ffff_ffff <= a * b <= 0x7fff_ffff_ffff_ffff) by (nonlinear_arith);
            let p: i64 = a * b;
            if p <= 0 {
                0
            } else if p / 100 > i32::MAX as i64 {
                i32::MAX
            } else {
                (p / 100) as i32
            }
        },
        LineSpacingType::Fixed | LineSpacingType::Minimum => {
            let d = ls_value - line_height_hwp;
            if d > 0 {
                d
            } else {
                0
            }
        },
        LineSpacingType::SpaceOnly => ls_value,
    }
}

pub open spec fn spec_font_line_height(fs: u32) -> i32 {
    if fs > i32::MAX {
        i32::MAX
    } else {
        fs as i32
    }
}

/// Line height of a font size: a line is as high as its font.
pub fn font_size_to_line_height(font_size: u32) -> (r: i32)
    ensures
        r == spec_font_line_height(font_size),
{
    if font_size > i32::MAX as u32 {
        i32::MAX
    } else {
        font_size as i32
    }
}

pub open spec fn font_or_default(fs: u32, px_size: u32) -> u32 {
    if fs > 0 {
        fs
    } else {
        default_font_size(px_size)
    }
}

/// A first line segment with a positive height, whose dimensions new lines keep.
pub open spec fn valid_orig(orig: Option<LineSeg>) -> bool {
    orig is Some && orig->0.line_height > 0
}

/// Height of a new line with largest font size `fs`.
pub open spec fn seg_line_height(orig: Option<LineSeg>, fs: u32, px_size: u32) -> i32 {
    if valid_orig(orig) {
        orig->0.line_height
    } else {
        spec_font_line_height(font_or_default(fs, px_size))
    }
}

pub open spec fn tag_or_default(tag: u32) -> u32 {
    if tag != 0 {
        tag
    } else {
        DEFAULT_LINE_SEG_TAG
    }
}

/// A new line segment starting at UTF-16 position `start` whose largest font size is `fs`:
/// with the dimensions of a valid first segment, or sized from the font.
pub open spec fn spec_make_seg(
    orig: Option<LineSeg>,
    ty: LineSpacingType,
    v: i32,
    seg_width: i32,
    start: u32,
    fs: u32,
    px_size: u32,
) -> LineSeg {
    if valid_orig(orig) {
        let o = orig->0;
        LineSeg {
            text_start: start,
            vertical_pos: 0,
            line_height: o.line_height,
            text_height: o.text_height,
            baseline_distance: o.baseline_distance,
            line_spacing: spec_line_spacing(ty, v, o.line_height) as i32,
            column_start: 0,
            segment_width: seg_width,
            tag: tag_or_default(o.tag),
        }
    } else {
        let lh = spec_font_line_height(font_or_default(fs, px_size));
        LineSeg {
            text_start: start,
            vertical_pos: 0,
            line_height: lh,
            text_height: lh,
            baseline_distance: (lh * 85 / 100) as i32,
            line_spacing: spec_line_spacing(ty, v, lh) as i32,
            column_start: 0,
            segment_width: seg_width,
            tag: tag_or_default(
                match orig {
                    Some(o) => o.tag,
                    None => DEFAULT_LINE_SEG_TAG,
                },
            ),
        }
    }
}

fn make_line_seg(
    orig: Option<LineSeg>,
    ls_type: LineSpacingType,
    ls_value: i32,
    seg_width: i32,
    utf16_start: u32,
    max_font_size: u32,
    px_size: u32,
) -> (seg: LineSeg)
    requires
        px_size_ok(px_size),
        spacing_fits(ls_type, ls_value, seg_line_height(orig, max_font_size, px_size)),
    ensures
        seg == spec_make_seg(orig, ls_type, ls_value, seg_width, utf16_start, max_font_size, px_size),
{
    match orig {
        Some(o) => {
            if o.line_height > 0 {
                return LineSeg {
                    text_start: utf16_start,
                    vertical_pos: 0,
                    line_height: o.line_height,
                    text_height: o.text_height,
                    baseline_distance: o.baseline_distance,
                    line_spacing: compute_line_spacing_hwp(ls_type, ls_value, o.line_height),
                    column_start: 0,
                    segment_width: seg_width,
                    tag: if o.tag != 0 {
                        o.tag
                    } else {
                        DEFAULT_LINE_SEG_TAG
                    },
                };
            }
        },
        None => {},
    }
    let fs = if max_font_size > 0 {
        max_font_size
    } else {
        default_font_size_of(px_size)
    };
    let lh = font_size_to_line_height(fs);
    let orig_tag = match orig {
        Some(o) => o.tag,
        None => DEFAULT_LINE_SEG_TAG,
    };
    LineSeg {
        text_start: utf16_start,
        vertical_pos: 0,
        line_height: lh,
        text_height: lh,
        baseline_distance: ((lh as i64) * 85 / 100) as i32,
        line_spacing: compute_line_spacing_hwp(ls_type, ls_value, lh),
        column_start: 0,
        segment_width: seg_width,
        tag: if orig_tag != 0 {
            orig_tag
        } else {
            DEFAULT_LINE_SEG_TAG
        },
    }
}


/// Number of UTF-16 units of a character.
pub open spec fn utf16_len(c: char) -> int {
    if c as u32 >= 0x10000 {
        2
    } else {
        1
    }
}

pub open spec fn para_style_of(styles: Seq<ParaStyle>, id: u16) -> Option<ParaStyle> {
    if (id as int) < styles.len() {
        Some(styles[id as int])
    } else {
        None
    }
}

pub open spec fn style_spacing_type(st: Option<ParaStyle>) -> LineSpacingType {
    match st {
        Some(s) => s.line_spacing_type,
        None => LineSpacingType::Percent,
    }
}

pub open spec fn style_spacing_value(st: Option<ParaStyle>) -> i32 {
    match st {
        Some(s) => s.line_spacing,
        None => DEFAULT_LINE_SPACING_PERCENT,
    }
}

pub open spec fn style_indent(st: Option<ParaStyle>) -> i32 {
    match st {
        Some(s) => s.indent,
        None => 0,
    }
}

pub open spec fn style_english_unit(st: Option<ParaStyle>) -> u8 {
    match st {
        Some(s) => s.english_break_unit,
        None => 0,
    }
}

pub open spec fn style_korean_unit(st: Option<ParaStyle>) -> u8 {
    match st {
        Some(s) => s.korean_break_unit,
        None => 0,
    }
}

pub open spec fn style_tab_width(st: Option<ParaStyle>) -> u32 {
    match st {
        Some(s) => s.default_tab_width,
        None => 0,
    }
}

pub open spec fn first_seg(segs: Seq<LineSeg>) -> Option<LineSeg> {
    if segs.len() > 0 {
        Some(segs[0])
    } else {
        None
    }
}

/// The lines of the paragraph's text at width `avail` under its style.
pub open spec fn reflow_lines(
    text: Seq<char>,
    avail: i32,
    st: Option<ParaStyle>,
    m: Seq<CharMetrics>,
    px_size: u32,
) -> Seq<LineBreakResult> {
    let tokens = spec_tokenize(text, m, style_english_unit(st), style_korean_unit(st), px_size);
    spec_fill_lines(
        tokens,
        text,
        avail as int,
        style_indent(st) as int,
        style_tab_width(st),
        style_korean_unit(st),
        px_size,
    )
}

/// UTF-16 position where line `k` starts: 0 for the first line, the start character's
/// offset, or just past the last character where the line starts beyond the offsets.
pub open spec fn seg_start_value(
    text: Seq<char>,
    offsets: Seq<u32>,
    k: int,
    lb: LineBreakResult,
) -> int {
    if k == 0 {
        0
    } else if (lb.start_idx as int) < offsets.len() {
        offsets[lb.start_idx as int] as int
    } else if offsets.len() > 0 {
        let last = offsets.len() - 1;
        offsets[last] + if last < text.len() {
            utf16_len(text[last])
        } else {
            1
        }
    } else {
        (lb.start_idx as u32) as int
    }
}

/// The new segments before vertical positions are assigned.
pub open spec fn unstacked_segs(
    text: Seq<char>,
    offsets: Seq<u32>,
    orig: Option<LineSeg>,
    st: Option<ParaStyle>,
    avail: i32,
    lines: Seq<LineBreakResult>,
    px_size: u32,
) -> Seq<LineSeg> {
    Seq::new(
        lines.len(),
        |k: int|
            spec_make_seg(
                orig,
                style_spacing_type(st),
                style_spacing_value(st),
                avail,
                seg_start_value(text, offsets, k, lines[k]) as u32,
                font_or_default(lines[k].max_font_size, px_size),
                px_size,
            ),
    )
}

/// Vertical advance from a line to the next.
pub open spec fn pitch(s: LineSeg) -> int {
    s.line_height + s.line_spacing
}

/// Vertical position of segment `k` when the first sits at `v0` and each follows the previous.
pub open spec fn vpos_at(segs: Seq<LineSeg>, v0: int, k: int) -> int
    decreases k,
{
    if k <= 0 {
        v0
    } else {
        vpos_at(segs, v0, k - 1) + pitch(segs[k - 1])
    }
}

/// The segments stacked from `v0` down.
pub open spec fn stacked(segs: Seq<LineSeg>, v0: int) -> Seq<LineSeg> {
    Seq::new(
        segs.len(),
        |k: int| LineSeg { vertical_pos: vpos_at(segs, v0, k) as i32, ..segs[k] },
    )
}

/// Stacking stays within 32 bits, the end of the last line included.
pub open spec fn stack_fits(segs: Seq<LineSeg>, v0: int) -> bool {
    forall|k: int|
        0 <= k < segs.len() ==> i32_range(pitch(#[trigger] segs[k])) && i32_range(
            vpos_at(segs, v0, k + 1),
        )
}

/// The line segments that reflowing gives a paragraph.
pub open spec fn spec_reflow(
    text: Seq<char>,
    offsets: Seq<u32>,
    old_segs: Seq<LineSeg>,
    st: Option<ParaStyle>,
    avail: i32,
    m: Seq<CharMetrics>,
    px_size: u32,
) -> Seq<LineSeg> {
    let orig = first_seg(old_segs);
    if text.len() == 0 {
        seq![spec_make_seg(orig, style_spacing_type(st), style_spacing_value(st), avail, 0, 0, px_size)]
    } else {
        let lines = reflow_lines(text, avail, st, m, px_size);
        let v0 = match orig {
            Some(o) => o.vertical_pos as int,
            None => 0,
        };
        stacked(unstacked_segs(text, offsets, orig, st, avail, lines, px_size), v0)
    }
}

/// The inputs on which reflowing stays within the machine's integers: a text of at most
/// `u32::MAX` characters measured character by character, and 32-bit line positions,
/// spacings and vertical positions.
pub open spec fn reflow_fits(
    text: Seq<char>,
    offsets: Seq<u32>,
    old_segs: Seq<LineSeg>,
    st: Option<ParaStyle>,
    avail: i32,
    m: Seq<CharMetrics>,
    px_size: u32,
) -> bool {
    let orig = first_seg(old_segs);
    let ty = style_spacing_type(st);
    let v = style_spacing_value(st);
    &&& text.len() <= u32::MAX
    &&& m.len() == text.len()
    &&& if text.len() == 0 {
        spacing_fits(ty, v, seg_line_height(orig, 0, px_size))
    } else {
        let lines = reflow_lines(text, avail, st, m, px_size);
        let v0 = match orig {
            Some(o) => o.vertical_pos as int,
            None => 0,
        };
        &&& forall|k: int|
            0 <= k < lines.len() ==> 0 <= seg_start_value(text, offsets, k, #[trigger] lines[k])
                <= u32::MAX
        &&& forall|k: int|
            0 <= k < lines.len() ==> spacing_fits(
                ty,
                v,
                seg_line_height(orig, font_or_default(#[trigger] lines[k].max_font_size, px_size), px_size),
            )
        &&& stack_fits(unstacked_segs(text, offsets, orig, st, avail, lines, px_size), v0)
    }
}

proof fn lemma_tile_usable(ts: Seq<BreakToken>, text: Seq<char>)
    requires
        tokens_tile(ts, text, 0),
        text.len() <= u32::MAX,
    ensures
        tokens_usable(ts, text.len() as int),
{
    assert forall|k: int| 0 <= k < ts.len() implies match #[trigger] ts[k] {
        BreakToken::Text { start_idx, end_idx, .. } => start_idx <= end_idx <= text.len(),
        BreakToken::Space { idx, .. } => idx < usize::MAX,
        BreakToken::Tab { idx, .. } => idx < usize::MAX,
        BreakToken::LineBreak { idx } => idx < usize::MAX,
    } by {
        assert(span_start(ts[k]) < span_end(ts[k]) <= text.len());
    }
}

fn line_text_start(text: &Vec<char>, offsets: &Vec<u32>, k: usize, lb: &LineBreakResult) -> (r: u32)
    requires
        0 <= seg_start_value(text@, offsets@, k as int, *lb) <= u32::MAX,
    ensures
        r == seg_start_value(text@, offsets@, k as int, *lb) as u32,
{
    if k == 0 {
        0
    } else if lb.start_idx < offsets.len() {
        offsets[lb.start_idx]
    } else if offsets.len() > 0 {
        let last_idx = offsets.len() - 1;
        let unit: u32 = if last_idx < text.len() {
            if text[last_idx] as u32 >= 0x10000 {
                2
            } else {
                1
            }
        } else {
            1
        };
        offsets[last_idx] + unit
    } else {
        lb.start_idx as u32
    }
}

fn para_style_at(para_styles: &[ParaStyle], id: u16) -> (r: Option<ParaStyle>)
    ensures
        r == para_style_of(para_styles@, id),
{
    if (id as usize) < para_styles.len() {
        Some(para_styles[id as usize])
    } else {
        None
    }
}

/// Recomputes the lines of a paragraph for a line `available_width` wide (HWPUNIT, paragraph
/// margins taken off), after its text changed. `para_styles` is indexed by the paragraph's
/// shape id; `metrics[i]` measures character `i` under each language slot. A valid first
/// segment lends its dimensions to every new line; the new lines stack down from its
/// vertical position. `px_size` is the HWPUNIT in one pixel at the caller's dpi, at which the
/// pixel defaults (12-pixel font, 48-pixel tab interval, one-pixel narrowest line) are taken.
pub fn reflow_line_segs(
    para: &mut Paragraph,
    available_width: i32,
    para_styles: &[ParaStyle],
    metrics: &[CharMetrics],
    px_size: u32,
)
    requires
        px_size_ok(px_size),
        reflow_fits(
            old(para).text@,
            old(para).char_offsets@,
            old(para).line_segs@,
            para_style_of(para_styles@, old(para).para_shape_id),
            available_width,
            metrics@,
            px_size,
        ),
    ensures
        final(para).line_segs@ == spec_reflow(
            old(para).text@,
            old(para).char_offsets@,
            old(para).line_segs@,
            para_style_of(para_styles@, old(para).para_shape_id),
            available_width,
            metrics@,
            px_size,
        ),
        final(para).text@ == old(para).text@,
        final(para).char_offsets@ == old(para).char_offsets@,
        final(para).char_shapes@ == old(para).char_shapes@,
        final(para).para_shape_id == old(para).para_shape_id,
{
    let ghost text = para.text@;
    let ghost offsets = para.char_offsets@;
    let orig: Option<LineSeg> = if para.line_segs.len() > 0 {
        Some(para.line_segs[0])
    } else {
        None
    };
    let style = para_style_at(para_styles, para.para_shape_id);
    let ls_type = match style {
        Some(s) => s.line_spacing_type,
        None => LineSpacingType::Percent,
    };
    let ls_value = match style {
        Some(s) => s.line_spacing,
        None => DEFAULT_LINE_SPACING_PERCENT,
    };
    if para.text.len() == 0 {
        let mut segs: Vec<LineSeg> = Vec::new();
        segs.push(make_line_seg(orig, ls_type, ls_value, available_width, 0, 0, px_size));
        para.line_segs = segs;
        return ;
    }
    let indent = match style {
        Some(s) => s.indent,
        None => 0,
    };
    let english_break_unit = match style {
        Some(s) => s.english_break_unit,
        None => 0,
    };
    let korean_break_unit = match style {
        Some(s) => s.korean_break_unit,
        None => 0,
    };
    let tab_width = match style {
        Some(s) => s.default_tab_width,
        None => 0,
    };
    let tokens = tokenize_paragraph(&para.text, metrics, english_break_unit, korean_break_unit, px_size);
    proof {
        lemma_tile_usable(tokens@, text);
        assert(tokens@.len() <= text.len()) by {
            lemma_tokens_count(tokens@, text, 0);
        }
    }
    let line_breaks = fill_lines(&tokens, &para.text, available_width, indent, tab_width, korean_break_unit, px_size);
    let ghost lines = line_breaks@;
    let ghost segs0 = unstacked_segs(text, offsets, orig, style, available_width, lines, px_size);
    let mut new_line_segs: Vec<LineSeg> = Vec::new();
    let mut k: usize = 0;
    while k < line_breaks.len()
        invariant
            px_size_ok(px_size),
            k <= line_breaks@.len(),
            lines == line_breaks@,
            text == para.text@,
            offsets == para.char_offsets@,
            segs0 == unstacked_segs(text, offsets, orig, style, available_width, lines, px_size),
            ls_type == style_spacing_type(style),
            ls_value == style_spacing_value(style),
            forall|j: int|
                0 <= j < lines.len() ==> 0 <= seg_start_value(text, offsets, j, #[trigger] lines[j])
                    <= u32::MAX,
            forall|j: int|
                0 <= j < lines.len() ==> spacing_fits(
                    ls_type,
                    ls_value,
                    seg_line_height(orig, font_or_default(#[trigger] lines[j].max_font_size, px_size), px_size),
                ),
            new_line_segs@ == segs0.subrange(0, k as int),
        decreases line_breaks@.len() - k,
    {
        let lb = &line_breaks[k];
        let utf16_start = line_text_start(&para.text, &para.char_offsets, k, lb);
        let fs = if lb.max_font_size > 0 {
            lb.max_font_size
        } else {
            default_font_size_of(px_size)
        };
        proof {
            assert(lines[k as int] == *lb);
        }
        let seg = make_line_seg(orig, ls_type, ls_value, available_width, utf16_start, fs, px_size);
        new_line_segs.push(seg);
        proof {
            assert(new_line_segs@ =~= segs0.subrange(0, k + 1));
        }
        k = k + 1;
    }
    let vpos_start: i32 = match orig {
        Some(o) => o.vertical_pos,
        None => 0,
    };
    let ghost v0 = vpos_start as int;
    let mut vpos: i32 = vpos_start;
    let mut i: usize = 0;
    let n = new_line_segs.len();
    while i < n
        invariant
            px_size_ok(px_size),
            n == new_line_segs@.len() == segs0.len(),
            i <= n,
            stack_fits(segs0, v0),
            vpos == vpos_at(segs0, v0, i as int),
            forall|j: int| 0 <= j < i ==> new_line_segs@[j] == stacked(segs0, v0)[j],
            forall|j: int| i <= j < n ==> new_line_segs@[j] == segs0[j],
        decreases n - i,
    {
        let mut seg = new_line_segs[i];
        seg.vertical_pos = vpos;
        proof {
            assert(i32_range(pitch(segs0[i as int])) && i32_range(vpos_at(segs0, v0, i + 1)));
        }
        let step = seg.line_height + seg.line_spacing;
        vpos = vpos + step;
        new_line_segs.set(i, seg);
        i = i + 1;
    }
    proof {
        assert(new_line_segs@ =~= stacked(segs0, v0));
    }
    para.line_segs = new_line_segs;
}

pub proof fn lemma_tokens_count(ts: Seq<BreakToken>, text: Seq<char>, from: int)
    requires
        tokens_tile(ts, text, from),
        0 <= from,
    ensures
        ts.len() <= text.len() - from,
    decreases ts.len(),
{
    if ts.len() > 0 {
        let rest = ts.subrange(1, ts.len() as int);
        assert forall|k: int| 0 <= k < rest.len() implies span_start(#[trigger] rest[k]) < span_end(rest[k]) <= text.len()
            && crate::tokenize::kind_matches(rest[k], text) by {
            assert(rest[k] == ts[k + 1]);
        }
        assert forall|k: int| 0 <= k < rest.len() - 1 implies span_end(#[trigger] rest[k]) == span_start(rest[k + 1]) by {
            assert(rest[k] == ts[k + 1]);
            assert(rest[k + 1] == ts[k + 2]);
        }
        if rest.len() > 0 {
            assert(rest[0] == ts[1]);
            assert(span_end(ts[0]) == span_start(ts[1]));
            assert(rest.last() == ts.last());
        } else {
            assert(ts.len() == 1);
        }
        lemma_tokens_count(rest, text, span_end(ts[0]));
    }
}


/// A reflowed paragraph has at least one line; the first starts at UTF-16 position 0; every
/// line is as wide as the room given and has a positive height (the height of a valid first
/// segment where there is one; otherwise the line's largest font size, 12 px at the caller's
/// pixel size where it has none, with the same text height and the baseline at 85% of it);
/// every line has a tag and the spacing its style gives its height; there is one line more
/// than line feeds at least; and the lines stack: the first at the old first segment's
/// vertical position, each next one a line height plus a line spacing further down.
pub proof fn law_reflow_layout(
    text: Seq<char>,
    offsets: Seq<u32>,
    old_segs: Seq<LineSeg>,
    st: Option<ParaStyle>,
    avail: i32,
    m: Seq<CharMetrics>,
    px_size: u32,
)
    requires
        px_size_ok(px_size),
        reflow_fits(text, offsets, old_segs, st, avail, m, px_size),
    ensures
        ({
            let r = spec_reflow(text, offsets, old_segs, st, avail, m, px_size);
            let orig = first_seg(old_segs);
            &&& r.len() > 0
            &&& r[0].text_start == 0
            &&& forall|k: int| 0 <= k < r.len() ==> (#[trigger] r[k]).segment_width == avail
            &&& forall|k: int| 0 <= k < r.len() ==> (#[trigger] r[k]).line_height > 0
            &&& forall|k: int| 0 <= k < r.len() ==> (#[trigger] r[k]).tag != 0
            &&& text.len() > 0 && !valid_orig(orig) ==> forall|k: int|
                0 <= k < r.len() ==> {
                    let lh = spec_font_line_height(
                        font_or_default(
                            #[trigger] reflow_lines(text, avail, st, m, px_size)[k].max_font_size,
                            px_size,
                        ),
                    );
                    &&& r[k].line_height == lh
                    &&& r[k].text_height == lh
                    &&& r[k].baseline_distance == (lh * 85 / 100) as i32
                }
            &&& forall|k: int|
                0 <= k < r.len() ==> (#[trigger] r[k]).line_spacing == spec_line_spacing(
                    style_spacing_type(st),
                    style_spacing_value(st),
                    r[k].line_height,
                ) as i32
            &&& r.len() >= count_feeds(text, text.len() as int) + 1
            &&& forall|k: int|
                0 <= k < r.len() && valid_orig(orig) ==> (#[trigger] r[k]).line_height
                    == orig->0.line_height
            &&& text.len() > 0 ==> r[0].vertical_pos == match orig {
                Some(o) => o.vertical_pos,
                None => 0,
            }
            &&& text.len() > 0 ==> forall|k: int|
                0 <= k < r.len() - 1 ==> (#[trigger] r[k + 1]).vertical_pos == r[k].vertical_pos
                    + r[k].line_height + r[k].line_spacing
        }),
{
    if text.len() > 0 {
        let lines = reflow_lines(text, avail, st, m, px_size);
        law_lines_in_text_order(
            text,
            m,
            style_english_unit(st),
            style_korean_unit(st),
            style_korean_unit(st),
            avail as int,
            style_indent(st) as int,
            style_tab_width(st),
            px_size,
        );
        law_forced_breaks_match_line_feeds(
            text,
            m,
            style_english_unit(st),
            style_korean_unit(st),
            style_korean_unit(st),
            avail as int,
            style_indent(st) as int,
            style_tab_width(st),
            px_size,
        );
        let orig = first_seg(old_segs);
        let segs = unstacked_segs(text, offsets, orig, st, avail, lines, px_size);
        let v0 = match orig {
            Some(o) => o.vertical_pos as int,
            None => 0,
        };
        let r = stacked(segs, v0);
        assert forall|k: int| 0 <= k < r.len() - 1 implies (#[trigger] r[k + 1]).vertical_pos
            == r[k].vertical_pos + r[k].line_height + r[k].line_spacing by {
            assert(i32_range(pitch(segs[k])) && i32_range(vpos_at(segs, v0, k + 1)));
            if k > 0 {
                assert(i32_range(pitch(segs[k - 1])) && i32_range(vpos_at(segs, v0, k)));
            }
        }
    }
}


/// The pitch of a line (its height plus the spacing below it): for percent spacing of at
/// least 100%, that percent of the height, rounded down; for fixed and least spacing, the
/// given pitch, or the height where the line is taller; for space-only spacing, the height
/// plus the given space.
pub proof fn law_line_pitch(ty: LineSpacingType, v: i32, lh: i32)
    requires
        lh >= 0,
        spacing_fits(ty, v, lh),
    ensures
        match ty {
            LineSpacingType::Percent => v >= 100 && lh * v / 100 - lh <= i32::MAX ==> lh
                + spec_line_spacing(ty, v, lh) == lh * v / 100,
            LineSpacingType::Fixed | LineSpacingType::Minimum => lh + spec_line_spacing(ty, v, lh)
                == if v > lh {
                v as int
            } else {
                lh as int
            },
            LineSpacingType::SpaceOnly => lh + spec_line_spacing(ty, v, lh) == lh + v,
        },
{
    match ty {
        LineSpacingType::Percent => {
            if v >= 100 {
                let a = lh * v;
                let b = lh as int;
                assert(lh * (v - 100) == a - 100 * b) by (nonlinear_arith)
                    requires
                        a == lh * v,
                        b == lh as int,
                ;
                assert(lh * (v - 100) >= 0) by (nonlinear_arith)
                    requires
                        lh >= 0,
                        v >= 100,
                ;
                vstd::arithmetic::div_mod::lemma_fundamental_div_mod(a, 100);
                vstd::arithmetic::div_mod::lemma_mod_pos_bound(a, 100);
                let q = a / 100 - b;
                let r = a % 100;
                assert(a - 100 * b == q * 100 + r) by (nonlinear_arith)
                    requires
                        a == 100 * (a / 100) + a % 100,
                        q == a / 100 - b,
                        r == a % 100,
                ;
                vstd::arithmetic::div_mod::lemma_fundamental_div_mod_converse(a - 100 * b, 100, q, r);
            }
        },
        _ => {},
    }
}


proof fn lemma_same_seg_source(
    o: LineSeg,
    o2: LineSeg,
    ty: LineSpacingType,
    v: i32,
    seg_width: i32,
    start: u32,
    fs: u32,
    px_size: u32,
)
    requires
        o.line_height > 0,
        o2.line_height == o.line_height,
        o2.text_height == o.text_height,
        o2.baseline_distance == o.baseline_distance,
        o2.tag == tag_or_default(o.tag),
    ensures
        spec_make_seg(Some(o2), ty, v, seg_width, start, fs, px_size) == spec_make_seg(
            Some(o),
            ty,
            v,
            seg_width,
            start,
            fs,
            px_size,
        ),
{
}

/// A paragraph with a valid first segment reflows to the same segments when reflowed again
/// with the same text, style, width and measurements.
pub proof fn law_reflow_idempotent(
    text: Seq<char>,
    offsets: Seq<u32>,
    old_segs: Seq<LineSeg>,
    st: Option<ParaStyle>,
    avail: i32,
    m: Seq<CharMetrics>,
    px_size: u32,
)
    requires
        px_size_ok(px_size),
        reflow_fits(text, offsets, old_segs, st, avail, m, px_size),
        valid_orig(first_seg(old_segs)),
    ensures
        spec_reflow(text, offsets, spec_reflow(text, offsets, old_segs, st, avail, m, px_size), st, avail, m, px_size)
            == spec_reflow(text, offsets, old_segs, st, avail, m, px_size),
{
    let r = spec_reflow(text, offsets, old_segs, st, avail, m, px_size);
    let o = first_seg(old_segs)->0;
    law_reflow_layout(text, offsets, old_segs, st, avail, m, px_size);
    let o2 = r[0];
    let ty = style_spacing_type(st);
    let v = style_spacing_value(st);
    if text.len() == 0 {
        lemma_same_seg_source(o, o2, ty, v, avail, 0, 0, px_size);
        assert(spec_reflow(text, offsets, r, st, avail, m, px_size) =~= r);
    } else {
        let lines = reflow_lines(text, avail, st, m, px_size);
        let segs = unstacked_segs(text, offsets, first_seg(old_segs), st, avail, lines, px_size);
        let segs2 = unstacked_segs(text, offsets, first_seg(r), st, avail, lines, px_size);
        assert forall|k: int| 0 <= k < segs.len() implies #[trigger] segs2[k] == segs[k] by {
            lemma_same_seg_source(
                o,
                o2,
                ty,
                v,
                avail,
                seg_start_value(text, offsets, k, lines[k]) as u32,
                font_or_default(lines[k].max_font_size, px_size),
                px_size,
            );
        }
        assert(segs2 =~= segs);
    }
}


proof fn lemma_start_value_monotone(text: Seq<char>, offsets: Seq<u32>, k: int, a: LineBreakResult, b: LineBreakResult)
    requires
        0 <= k,
        a.start_idx <= b.start_idx,
        forall|i: int, j: int| 0 <= i <= j < offsets.len() ==> offsets[i] <= offsets[j],
        b.start_idx <= u32::MAX,
    ensures
        seg_start_value(text, offsets, k, a) <= seg_start_value(text, offsets, k + 1, b),
{
    if k > 0 && offsets.len() > 0 {
        let last = offsets.len() - 1;
        if (a.start_idx as int) < offsets.len() {
            assert(offsets[a.start_idx as int] <= offsets[last]);
            if (b.start_idx as int) < offsets.len() {
                assert(offsets[a.start_idx as int] <= offsets[b.start_idx as int]);
            }
        }
    }
}

proof fn lemma_reflow_seg_start(
    text: Seq<char>,
    offsets: Seq<u32>,
    old_segs: Seq<LineSeg>,
    st: Option<ParaStyle>,
    avail: i32,
    m: Seq<CharMetrics>,
    k: int,
    px_size: u32,
)
    requires
        text.len() > 0,
        0 <= k < reflow_lines(text, avail, st, m, px_size).len(),
    ensures
        spec_reflow(text, offsets, old_segs, st, avail, m, px_size)[k].text_start == seg_start_value(
            text,
            offsets,
            k,
            reflow_lines(text, avail, st, m, px_size)[k],
        ) as u32,
        spec_reflow(text, offsets, old_segs, st, avail, m, px_size).len() == reflow_lines(text, avail, st, m, px_size).len(),
{
}

/// With UTF-16 offsets that never decrease, the reflowed lines start at UTF-16 positions that
/// never decrease either: line segments follow the text.
pub proof fn law_reflow_text_starts_in_order(
    text: Seq<char>,
    offsets: Seq<u32>,
    old_segs: Seq<LineSeg>,
    st: Option<ParaStyle>,
    avail: i32,
    m: Seq<CharMetrics>,
    px_size: u32,
)
    requires
        px_size_ok(px_size),
        reflow_fits(text, offsets, old_segs, st, avail, m, px_size),
        forall|i: int, j: int| 0 <= i <= j < offsets.len() ==> offsets[i] <= offsets[j],
    ensures
        ({
            let r = spec_reflow(text, offsets, old_segs, st, avail, m, px_size);
            forall|k: int| 0 <= k < r.len() - 1 ==> (#[trigger] r[k]).text_start <= r[k + 1].text_start
        }),
{
    if text.len() > 0 {
        let lines = reflow_lines(text, avail, st, m, px_size);
        law_lines_in_text_order(
            text,
            m,
            style_english_unit(st),
            style_korean_unit(st),
            style_korean_unit(st),
            avail as int,
            style_indent(st) as int,
            style_tab_width(st),
            px_size,
        );
        let r = spec_reflow(text, offsets, old_segs, st, avail, m, px_size);
        lemma_reflow_seg_start(text, offsets, old_segs, st, avail, m, 0, px_size);
        assert forall|k: int| 0 <= k < r.len() - 1 implies (#[trigger] r[k]).text_start <= r[k + 1].text_start by {
            lemma_reflow_seg_start(text, offsets, old_segs, st, avail, m, k, px_size);
            lemma_reflow_seg_start(text, offsets, old_segs, st, avail, m, k + 1, px_size);
            assert(lines_chain(lines, text.len() as int));
            assert(lines[k].start_idx <= lines[k].end_idx);
            assert(lines[k].end_idx <= lines[k + 1].start_idx);
            assert(lines[k + 1].start_idx <= lines[k + 1].end_idx);
            if k + 1 < lines.len() - 1 {
                assert(lines[k + 1].end_idx <= lines[k + 2].start_idx);
            }
            lemma_line_starts_bounded(lines, text.len() as int, k + 1);
            lemma_start_value_monotone(text, offsets, k, lines[k], lines[k + 1]);
        }
    }
}

proof fn lemma_line_starts_bounded(lines: Seq<LineBreakResult>, n: int, k: int)
    requires
        lines_chain(lines, n),
        0 <= k < lines.len(),
    ensures
        lines[k].start_idx <= n,
    decreases lines.len() - k,
{
    if k < lines.len() - 1 {
        lemma_line_starts_bounded(lines, n, k + 1);
    }
}

/// The lines of a reflowed paragraph are those that filling its tokens gives under its own
/// style: the style's break units, indent (a positive one narrows the first line, a negative
/// one the others) and tab interval, or none of them where the paragraph's style is missing.
/// Each new segment starts at the UTF-16 position of its line.
pub proof fn law_reflow_lines_follow_style(
    text: Seq<char>,
    offsets: Seq<u32>,
    old_segs: Seq<LineSeg>,
    styles: Seq<ParaStyle>,
    id: u16,
    avail: i32,
    m: Seq<CharMetrics>,
    px_size: u32,
)
    requires
        text.len() > 0,
    ensures
        ({
            let (eb, kb, indent, tab_w) = if (id as int) < styles.len() {
                let s = styles[id as int];
                (s.english_break_unit, s.korean_break_unit, s.indent as int, s.default_tab_width)
            } else {
                (0u8, 0u8, 0int, 0u32)
            };
            let lines = spec_fill_lines(
                spec_tokenize(text, m, eb, kb, px_size),
                text,
                avail as int,
                indent,
                tab_w,
                kb,
                px_size,
            );
            let r = spec_reflow(text, offsets, old_segs, para_style_of(styles, id), avail, m, px_size);
            &&& r.len() == lines.len()
            &&& forall|k: int|
                0 <= k < r.len() ==> (#[trigger] r[k]).text_start == seg_start_value(
                    text,
                    offsets,
                    k,
                    lines[k],
                ) as u32
        }),
{
    let st = para_style_of(styles, id);
    let lines = reflow_lines(text, avail, st, m, px_size);
    let r = spec_reflow(text, offsets, old_segs, st, avail, m, px_size);
    assert forall|k: int| 0 <= k < r.len() implies (#[trigger] r[k]).text_start == seg_start_value(
        text,
        offsets,
        k,
        lines[k],
    ) as u32 by {
        lemma_reflow_seg_start(text, offsets, old_segs, st, avail, m, k, px_size);
    }
    if lines.len() > 0 {
        lemma_reflow_seg_start(text, offsets, old_segs, st, avail, m, 0, px_size);
    }
}

} // verus!
