//! Greedy placement of break tokens on lines.
use vstd::prelude::*;
use crate::chars::{
    is_cjk_char, is_cjk_ideograph, is_hangul, spec_is_cjk_char, spec_is_cjk_ideograph,
    spec_is_hangul,
};
use crate::metrics::{
    default_font_size, default_font_size_of, default_tab_width, default_tab_width_of,
    min_line_width, px_size_ok,
};
use crate::tokenize::{
    is_separator, kind_matches, max_u32, span_end, span_start, spec_tokenize, tokens_tile,
    law_tokens_tile_text, BreakToken,
};
use crate::metrics::CharMetrics;

verus! {

/// One line: characters `start_idx..end_idx`, its largest font size, and whether it ends in
/// a forced line break.
#[derive(Clone, Copy, Debug, PartialEq, Eq, Structural)]
pub struct LineBreakResult {
    pub start_idx: usize,
    pub end_idx: usize,
    pub max_font_size: u32,
    pub has_line_break: bool,
}

pub open spec fn line(start: int, end: int, fs: u32, lb: bool) -> LineBreakResult {
    LineBreakResult {
        start_idx: start as usize,
        end_idx: end as usize,
        max_font_size: fs,
        has_line_break: lb,
    }
}

/// Width available to a line: a positive indent narrows the first line, a negative one
/// (hanging indent) the following lines, never below one pixel.
pub open spec fn effective_width(avail: int, indent: int, first: bool, px_size: u32) -> int {
    if indent > 0 {
        if first {
            if avail - indent > min_line_width(px_size) {
                avail - indent
            } else {
                min_line_width(px_size)
            }
        } else {
            avail
        }
    } else if indent < 0 {
        if first {
            avail
        } else {
            if avail + indent > min_line_width(px_size) {
                avail + indent
            } else {
                min_line_width(px_size)
            }
        }
    } else {
        avail
    }
}

/// The first tab stop after position `lw` for stops every `tw`.
pub open spec fn tab_stop(lw: int, tw: int) -> int {
    (lw / tw + 1) * tw
}

/// The first position at or after `k` that is not a space.
pub open spec fn skip_spaces(text: Seq<char>, k: int) -> int
    decreases text.len() - k,
{
    if k < 0 || k >= text.len() || text[k] != ' ' {
        k
    } else {
        skip_spaces(text, k + 1)
    }
}

/// Width that the token contributes to a line that starts at `ns`.
pub open spec fn width_from(t: BreakToken, ns: int) -> int {
    match t {
        BreakToken::Text { start_idx, width, .. } => if start_idx >= ns {
            width as int
        } else {
            0
        },
        BreakToken::Space { idx, width, .. } => if idx >= ns {
            width as int
        } else {
            0
        },
        _ => 0,
    }
}

/// Width of the text and space tokens among `tokens[..k]` that lie at or after `ns`.
pub open spec fn spec_recalc_width(tokens: Seq<BreakToken>, k: int, ns: int) -> int
    decreases k,
{
    if k <= 0 {
        0
    } else {
        spec_recalc_width(tokens, k - 1, ns) + width_from(tokens[k - 1], ns)
    }
}

/// Width given to a character of an over-long word that is broken character by character.
pub open spec fn char_break_width(c: char, fs: u32, px_size: u32) -> int {
    let base: int = if fs > default_font_size(px_size) {
        fs as int
    } else {
        default_font_size(px_size) as int
    };
    if spec_is_cjk_char(c) {
        base
    } else {
        base / 2
    }
}

/// Breaking `text[ci..te]` character by character on a line that starts at `ls` and is
/// `lw` wide, with room `cw` (then `normal` on later lines): the lines completed, the start
/// and the width of the last one.
pub open spec fn spec_char_break(
    text: Seq<char>,
    ci: int,
    te: int,
    fs: u32,
    normal: int,
    parts: Seq<LineBreakResult>,
    ls: int,
    lw: int,
    cw: int,
    px_size: u32,
) -> (Seq<LineBreakResult>, int, int)
    decreases te - ci,
{
    if ci >= te {
        (parts, ls, lw)
    } else {
        let chw = char_break_width(text[ci], fs, px_size);
        if lw + chw > cw && ci > ls {
            spec_char_break(text, ci + 1, te, fs, normal, parts.push(line(ls, ci, fs, false)), ci, chw, normal, px_size)
        } else {
            spec_char_break(text, ci + 1, te, fs, normal, parts, ls, lw + chw, cw, px_size)
        }
    }
}

/// State of the greedy filler between tokens.
pub struct FillState {
    pub lines: Seq<LineBreakResult>,
    pub line_start: int,
    pub line_width: int,
    pub line_max_fs: u32,
    pub first: bool,
    pub has_break: bool,
    pub break_char: int,
    pub width_at_break: int,
    pub fs_at_break: u32,
}

pub open spec fn fill_init() -> FillState {
    FillState {
        lines: seq![],
        line_start: 0,
        line_width: 0,
        line_max_fs: 0,
        first: true,
        has_break: false,
        break_char: 0,
        width_at_break: 0,
        fs_at_break: 0,
    }
}

/// The state with a break opportunity recorded before character `at`.
pub open spec fn with_break(st: FillState, at: int) -> FillState {
    FillState {
        has_break: true,
        break_char: at,
        width_at_break: st.line_width,
        fs_at_break: st.line_max_fs,
        ..st
    }
}

/// Whether a one-character text token at `s` opens a break opportunity before it: Hanja and
/// kana always, Hangul only when Korean text breaks by character.
pub open spec fn char_allows_break(text: Seq<char>, s: int, kb: u8) -> bool {
    if spec_is_hangul(text[s]) {
        kb == 1
    } else {
        spec_is_cjk_ideograph(text[s])
    }
}

/// Processing token `ti`.
pub open spec fn fill_step(
    tokens: Seq<BreakToken>,
    text: Seq<char>,
    avail: int,
    indent: int,
    tab_w: int,
    kb: u8,
    ti: int,
    st: FillState,
    px_size: u32,
) -> FillState {
    match tokens[ti] {
        BreakToken::LineBreak { idx } => FillState {
            lines: st.lines.push(line(st.line_start, idx + 1, st.line_max_fs, true)),
            line_start: idx + 1,
            line_width: 0,
            line_max_fs: 0,
            first: false,
            has_break: false,
            ..st
        },
        BreakToken::Tab { idx, max_font_size } => {
            let fs = max_u32(st.line_max_fs, max_font_size);
            let next_tab = tab_stop(st.line_width, tab_w);
            if next_tab > effective_width(avail, indent, st.first, px_size) && st.line_start < idx {
                if st.has_break {
                    FillState {
                        lines: st.lines.push(line(st.line_start, st.break_char, st.fs_at_break, false)),
                        line_start: st.break_char,
                        line_width: tab_stop(st.line_width - st.width_at_break, tab_w),
                        line_max_fs: fs,
                        first: false,
                        has_break: false,
                        ..st
                    }
                } else {
                    FillState {
                        lines: st.lines.push(line(st.line_start, idx as int, fs, false)),
                        line_start: idx as int,
                        line_width: tab_stop(0, tab_w),
                        line_max_fs: max_font_size,
                        first: false,
                        has_break: false,
                        ..st
                    }
                }
            } else {
                FillState {
                    line_width: next_tab,
                    ..with_break(FillState { line_max_fs: fs, ..st }, idx as int)
                }
            }
        },
        BreakToken::Space { idx, width, max_font_size } => {
            let st1 = with_break(
                FillState { line_max_fs: max_u32(st.line_max_fs, max_font_size), ..st },
                idx as int,
            );
            FillState { line_width: st.line_width + width, ..st1 }
        },
        BreakToken::Text { start_idx, end_idx, width, max_font_size } => {
            let s = start_idx as int;
            let st0 = FillState { line_max_fs: max_u32(st.line_max_fs, max_font_size), ..st };
            let st1 = if end_idx - start_idx == 1 && s > st.line_start && char_allows_break(
                text,
                s,
                kb,
            ) {
                with_break(st0, s)
            } else {
                st0
            };
            if st1.line_width + width > effective_width(avail, indent, st1.first, px_size) {
                if s > st1.line_start && st1.has_break {
                    let ns = skip_spaces(text, st1.break_char);
                    FillState {
                        lines: st1.lines.push(
                            line(st1.line_start, st1.break_char, st1.fs_at_break, false),
                        ),
                        line_start: ns,
                        line_width: spec_recalc_width(tokens, ti, ns) + width,
                        line_max_fs: max_font_size,
                        first: false,
                        has_break: false,
                        ..st1
                    }
                } else {
                    let (parts, ls, lw) = spec_char_break(
                        text,
                        s,
                        end_idx as int,
                        st1.line_max_fs,
                        avail,
                        seq![],
                        st1.line_start,
                        st1.line_width,
                        if st1.first {
                            effective_width(avail, indent, true, px_size)
                        } else {
                            avail
                        },
                        px_size,
                    );
                    FillState {
                        lines: st1.lines + parts,
                        line_start: ls,
                        line_width: lw,
                        first: st1.first && parts.len() == 0,
                        has_break: false,
                        ..st1
                    }
                }
            } else {
                FillState { line_width: st1.line_width + width, ..st1 }
            }
        },
    }
}

/// The state after the first `k` tokens.
pub open spec fn fill_fold(
    tokens: Seq<BreakToken>,
    text: Seq<char>,
    avail: int,
    indent: int,
    tab_w: int,
    kb: u8,
    k: int,
    px_size: u32,
) -> FillState
    decreases k,
{
    if k <= 0 {
        fill_init()
    } else {
        fill_step(tokens, text, avail, indent, tab_w, kb, k - 1, fill_fold(tokens, text, avail, indent, tab_w, kb, k - 1, px_size), px_size)
    }
}

pub open spec fn tab_width_or_default(tab_w: u32, px_size: u32) -> int {
    if tab_w > 0 {
        tab_w as int
    } else {
        default_tab_width(px_size) as int
    }
}

/// The lines of a paragraph: every token placed greedily, then the last line closed; a
/// paragraph without tokens, or without any line, gets one empty line.
pub open spec fn spec_fill_lines(
    tokens: Seq<BreakToken>,
    text: Seq<char>,
    avail: int,
    indent: int,
    tab_w: u32,
    kb: u8,
    px_size: u32,
) -> Seq<LineBreakResult> {
    if tokens.len() == 0 {
        seq![line(0, 0, 0, false)]
    } else {
        let st = fill_fold(tokens, text, avail, indent, tab_width_or_default(tab_w, px_size), kb, tokens.len() as int, px_size);
        let last_end = span_end(tokens.last());
        let lines = if st.line_start <= last_end {
            st.lines.push(line(st.line_start, last_end, st.line_max_fs, false))
        } else {
            st.lines
        };
        if lines.len() == 0 {
            seq![line(0, text.len() as int, 0, false)]
        } else {
            lines
        }
    }
}

/// The positions of the tokens can be used on a text of `n` characters: each word lies in
/// the text, and the position after every other token is a `usize`.
pub open spec fn tokens_usable(tokens: Seq<BreakToken>, n: int) -> bool {
    forall|k: int|
        0 <= k < tokens.len() ==> match #[trigger] tokens[k] {
            BreakToken::Text { start_idx, end_idx, .. } => start_idx <= end_idx <= n,
            BreakToken::Space { idx, .. } => idx < usize::MAX,
            BreakToken::Tab { idx, .. } => idx < usize::MAX,
            BreakToken::LineBreak { idx } => idx < usize::MAX,
        }
}

pub open spec fn bounded_width(k: int) -> int {
    k * 0x4_0000_0000_0000_0000
}

fn effective_width_of(avail: i32, indent: i32, first: bool, px_size: u32) -> (r: i64)
    requires
        px_size_ok(px_size),
    ensures
        r == effective_width(avail as int, indent as int, first, px_size),
{
    let a = avail as i64;
    let i = indent as i64;
    let least = px_size as i64;
    if i > 0 {
        if first {
            if a - i > least {
                a - i
            } else {
                least
            }
        } else {
            a
        }
    } else if i < 0 {
        if first {
            a
        } else {
            if a + i > least {
                a + i
            } else {
                least
            }
        }
    } else {
        a
    }
}

/// Whether a line `total` wide overflows room `room`.
fn exceeds(total: u128, room: i64) -> (r: bool)
    ensures
        r == (total as int > room as int),
{
    if room < 0 {
        true
    } else {
        total > room as u128
    }
}

fn tab_stop_of(lw: u128, tw: u128) -> (r: u128)
    requires
        0 < tw <= u32::MAX,
        lw <= 0x1_0000_0000_0000_0000_0000_0000_0000,
    ensures
        r == tab_stop(lw as int, tw as int),
        lw < r <= lw + tw,
{
    proof {
        let x = lw as int;
        let d = tw as int;
        vstd::arithmetic::div_mod::lemma_fundamental_div_mod(x, d);
        vstd::arithmetic::div_mod::lemma_mod_pos_bound(x, d);
        let q = x / d;
        assert((q + 1) * d == d * q + d) by (nonlinear_arith);
    }
    (lw / tw + 1) * tw
}

/// The first position at or after `k` that is not a space.
pub fn skip_spaces_from(text: &[char], k: usize) -> (r: usize)
    ensures
        r == skip_spaces(text@, k as int),
{
    let mut j = k;
    while j < text.len() && text[j] == ' '
        invariant
            k <= j,
            skip_spaces(text@, j as int) == skip_spaces(text@, k as int),
        decreases text@.len() - j,
    {
        j = j + 1;
    }
    j
}

/// Width of the text and space tokens before token `current_token_idx` that lie at or after
/// `new_line_start`: the width of a new line up to the current token.
pub fn recalc_width_from(tokens: &[BreakToken], current_token_idx: usize, new_line_start: usize) -> (w:
    u128)
    requires
        current_token_idx <= tokens@.len(),
    ensures
        w == spec_recalc_width(tokens@, current_token_idx as int, new_line_start as int),
        w <= current_token_idx * 0x1_0000_0000_0000_0000,
{
    let mut w: u128 = 0;
    let mut j: usize = 0;
    while j < current_token_idx
        invariant
            j <= current_token_idx <= tokens@.len(),
            w == spec_recalc_width(tokens@, j as int, new_line_start as int),
            w <= j * 0x1_0000_0000_0000_0000,
        decreases current_token_idx - j,
    {
        match tokens[j] {
            BreakToken::Text { start_idx, width, .. } => {
                if start_idx >= new_line_start {
                    w = w + width as u128;
                }
            },
            BreakToken::Space { idx, width, .. } => {
                if idx >= new_line_start {
                    w = w + width as u128;
                }
            },
            _ => {},
        }
        j = j + 1;
    }
    w
}

fn char_break_width_of(c: char, fs: u32, px_size: u32) -> (r: u32)
    requires
        px_size_ok(px_size),
    ensures
        r == char_break_width(c, fs, px_size),
{
    let least = default_font_size_of(px_size);
    let base: u32 = if fs > least {
        fs
    } else {
        least
    };
    if is_cjk_char(c) {
        base
    } else {
        base / 2
    }
}

/// Breaks an over-long word `text[token_start..token_end]` character by character. The line
/// so far starts at `*line_start_idx` and is `line_width` wide; the first line has room
/// `first_line_width` when `is_first_line`, every other line `normal_width`. Returns the
/// completed lines, the width of the open line and its font size. A character counts the
/// line's font size, at least 12 px at pixel size `px_size` (HWPUNIT per pixel), or half of it
/// where it is not full-width.
pub fn char_level_break(
    text_chars: &[char],
    token_start: usize,
    token_end: usize,
    line_start_idx: &mut usize,
    line_width: u128,
    line_max_fs: u32,
    first_line_width: i64,
    normal_width: i64,
    is_first_line: bool,
    px_size: u32,
) -> (r: (Vec<LineBreakResult>, u128, u32))
    requires
        px_size_ok(px_size),
        token_start <= token_end <= text_chars@.len() <= u32::MAX,
        line_width <= 0x1_0000_0000_0000_0000_0000_0000_0000,
    ensures
        ({
            let (parts, ls, lw) = spec_char_break(
                text_chars@,
                token_start as int,
                token_end as int,
                line_max_fs,
                normal_width as int,
                seq![],
                *old(line_start_idx) as int,
                line_width as int,
                if is_first_line {
                    first_line_width as int
                } else {
                    normal_width as int
                },
                px_size,
            );
            &&& r.0@ == parts
            &&& *final(line_start_idx) == ls
            &&& r.1 == lw
        }),
        r.1 <= line_width + 0x1_0000_0000_0000_0000,
        r.2 == line_max_fs,
{
    let mut results: Vec<LineBreakResult> = Vec::new();
    let mut current_width: i64 = if is_first_line {
        first_line_width
    } else {
        normal_width
    };
    let mut lw = line_width;
    let mut ci = token_start;
    while ci < token_end
        invariant
            px_size_ok(px_size),
            token_start <= ci <= token_end <= text_chars@.len() <= u32::MAX,
            line_width <= 0x1_0000_0000_0000_0000_0000_0000_0000,
            lw <= line_width + (ci - token_start) * 0x1_0000_0000,
            spec_char_break(
                text_chars@,
                ci as int,
                token_end as int,
                line_max_fs,
                normal_width as int,
                results@,
                *line_start_idx as int,
                lw as int,
                current_width as int,
                px_size,
            ) == spec_char_break(
                text_chars@,
                token_start as int,
                token_end as int,
                line_max_fs,
                normal_width as int,
                seq![],
                *old(line_start_idx) as int,
                line_width as int,
                if is_first_line {
                    first_line_width as int
                } else {
                    normal_width as int
                },
                px_size,
            ),
        decreases token_end - ci,
    {
        let chw = char_break_width_of(text_chars[ci], line_max_fs, px_size);
        if exceeds(lw + chw as u128, current_width) && ci > *line_start_idx {
            results.push(
                LineBreakResult {
                    start_idx: *line_start_idx,
                    end_idx: ci,
                    max_font_size: line_max_fs,
                    has_line_break: false,
                },
            );
            *line_start_idx = ci;
            lw = chw as u128;
            current_width = normal_width;
        } else {
            lw = lw + chw as u128;
        }
        ci = ci + 1;
    }
    (results, lw, line_max_fs)
}


struct LineFill {
    lines: Vec<LineBreakResult>,
    line_start: usize,
    line_width: u128,
    line_max_fs: u32,
    first: bool,
    has_break: bool,
    break_char: usize,
    width_at_break: u128,
    fs_at_break: u32,
}

impl LineFill {
    spec fn state(&self) -> FillState {
        FillState {
            lines: self.lines@,
            line_start: self.line_start as int,
            line_width: self.line_width as int,
            line_max_fs: self.line_max_fs,
            first: self.first,
            has_break: self.has_break,
            break_char: self.break_char as int,
            width_at_break: self.width_at_break as int,
            fs_at_break: self.fs_at_break,
        }
    }

    spec fn bounded(&self, k: int) -> bool {
        &&& self.line_width <= bounded_width(k)
        &&& self.has_break ==> self.width_at_break <= self.line_width
    }

    fn record_break(&mut self, at: usize)
        ensures
            final(self).state() == with_break(old(self).state(), at as int),
            final(self).width_at_break == old(self).line_width,
            final(self).line_width == old(self).line_width,
    {
        self.has_break = true;
        self.break_char = at;
        self.width_at_break = self.line_width;
        self.fs_at_break = self.line_max_fs;
    }

    fn step(
        &mut self,
        tokens: &[BreakToken],
        text_chars: &[char],
        avail: i32,
        indent: i32,
        tab_w: u32,
        kb: u8,
        ti: usize,
        px_size: u32,
    )
        requires
            px_size_ok(px_size),
            ti < tokens@.len() <= u32::MAX,
            text_chars@.len() <= u32::MAX,
            tokens_usable(tokens@, text_chars@.len() as int),
            0 < tab_w,
            old(self).bounded(ti as int),
        ensures
            final(self).state() == fill_step(
                tokens@,
                text_chars@,
                avail as int,
                indent as int,
                tab_w as int,
                kb,
                ti as int,
                old(self).state(),
                px_size,
            ),
            final(self).bounded(ti + 1),
    {
        let tw = tab_w as u128;
        match tokens[ti] {
            BreakToken::LineBreak { idx } => {
                self.lines.push(
                    LineBreakResult {
                        start_idx: self.line_start,
                        end_idx: idx + 1,
                        max_font_size: self.line_max_fs,
                        has_line_break: true,
                    },
                );
                self.line_start = idx + 1;
                self.line_width = 0;
                self.line_max_fs = 0;
                self.first = false;
                self.has_break = false;
            },
            BreakToken::Tab { idx, max_font_size } => {
                if max_font_size > self.line_max_fs {
                    self.line_max_fs = max_font_size;
                }
                let next_tab = tab_stop_of(self.line_width, tw);
                let room = effective_width_of(avail, indent, self.first, px_size);
                if exceeds(next_tab, room) && self.line_start < idx {
                    if self.has_break {
                        self.lines.push(
                            LineBreakResult {
                                start_idx: self.line_start,
                                end_idx: self.break_char,
                                max_font_size: self.fs_at_break,
                                has_line_break: false,
                            },
                        );
                        self.line_start = self.break_char;
                        self.line_width = tab_stop_of(self.line_width - self.width_at_break, tw);
                    } else {
                        self.lines.push(
                            LineBreakResult {
                                start_idx: self.line_start,
                                end_idx: idx,
                                max_font_size: self.line_max_fs,
                                has_line_break: false,
                            },
                        );
                        self.line_start = idx;
                        self.line_max_fs = max_font_size;
                        self.line_width = tab_stop_of(0, tw);
                    }
                    self.first = false;
                    self.has_break = false;
                    } else {
                    self.record_break(idx);
                    self.line_width = next_tab;
                }
            },
            BreakToken::Space { idx, width, max_font_size } => {
                if max_font_size > self.line_max_fs {
                    self.line_max_fs = max_font_size;
                }
                self.record_break(idx);
                self.line_width = self.line_width + width as u128;
            },
            BreakToken::Text { start_idx, end_idx, width, max_font_size } => {
                if max_font_size > self.line_max_fs {
                    self.line_max_fs = max_font_size;
                }
                if end_idx - start_idx == 1 && start_idx > self.line_start {
                    let c = text_chars[start_idx];
                    let allow_break = if is_hangul(c) {
                        kb == 1
                    } else {
                        is_cjk_ideograph(c)
                    };
                    if allow_break {
                        self.record_break(start_idx);
                    }
                }
                let room = effective_width_of(avail, indent, self.first, px_size);
                if exceeds(self.line_width + width as u128, room) {
                    if start_idx > self.line_start && self.has_break {
                        self.lines.push(
                            LineBreakResult {
                                start_idx: self.line_start,
                                end_idx: self.break_char,
                                max_font_size: self.fs_at_break,
                                has_line_break: false,
                            },
                        );
                        let next_start = skip_spaces_from(text_chars, self.break_char);
                        self.line_start = next_start;
                        let w = recalc_width_from(tokens, ti, next_start);
                        self.line_width = w + width as u128;
                        self.line_max_fs = max_font_size;
                        self.first = false;
                        self.has_break = false;
                    } else {
                        let mut ls = self.line_start;
                        let (parts, remaining_width, remaining_fs) = char_level_break(
                            text_chars,
                            start_idx,
                            end_idx,
                            &mut ls,
                            self.line_width,
                            self.line_max_fs,
                            room,
                            avail as i64,
                            self.first,
                            px_size,
                        );
                        let mut parts = parts;
                        if parts.len() > 0 {
                            self.first = false;
                        }
                        self.lines.append(&mut parts);
                        self.line_start = ls;
                        self.line_width = remaining_width;
                        self.line_max_fs = remaining_fs;
                        self.has_break = false;
                    }
                } else {
                    self.line_width = self.line_width + width as u128;
                }
            },
        }
    }
}

/// Places tokens on lines greedily. `available_width` is the room of a line and `indent`
/// the paragraph indent (HWPUNIT); `default_tab_width` the tab interval, 0 for the default;
/// `korean_break_unit` 1 when Hangul may break between any two characters; `px_size` the
/// HWPUNIT in one pixel, at which the 48-pixel default tab interval, the one-pixel narrowest
/// line and the 12-pixel least font size of character breaking are taken.
pub fn fill_lines(
    tokens: &[BreakToken],
    text_chars: &[char],
    available_width: i32,
    indent: i32,
    default_tab_width: u32,
    korean_break_unit: u8,
    px_size: u32,
) -> (lines: Vec<LineBreakResult>)
    requires
        px_size_ok(px_size),
        tokens@.len() <= u32::MAX,
        text_chars@.len() <= u32::MAX,
        tokens_usable(tokens@, text_chars@.len() as int),
    ensures
        lines@ == spec_fill_lines(
            tokens@,
            text_chars@,
            available_width as int,
            indent as int,
            default_tab_width,
            korean_break_unit,
            px_size,
        ),
{
    if tokens.len() == 0 {
        let mut v: Vec<LineBreakResult> = Vec::new();
        v.push(LineBreakResult { start_idx: 0, end_idx: 0, max_font_size: 0, has_line_break: false });
        return v;
    }
    let tab_w: u32 = if default_tab_width > 0 {
        default_tab_width
    } else {
        default_tab_width_of(px_size)
    };
    let mut fill = LineFill {
        lines: Vec::new(),
        line_start: 0,
        line_width: 0,
        line_max_fs: 0,
        first: true,
        has_break: false,
        break_char: 0,
        width_at_break: 0,
        fs_at_break: 0,
    };
    let mut ti: usize = 0;
    while ti < tokens.len()
        invariant
            px_size_ok(px_size),
            ti <= tokens@.len() <= u32::MAX,
            text_chars@.len() <= u32::MAX,
            tokens_usable(tokens@, text_chars@.len() as int),
            0 < tab_w,
            tab_w as int == tab_width_or_default(default_tab_width, px_size),
            fill.bounded(ti as int),
            fill.state() == fill_fold(
                tokens@,
                text_chars@,
                available_width as int,
                indent as int,
                tab_w as int,
                korean_break_unit,
                ti as int,
                px_size,
            ),
        decreases tokens@.len() - ti,
    {
        fill.step(tokens, text_chars, available_width, indent, tab_w, korean_break_unit, ti, px_size);
        ti = ti + 1;
    }
    let last_end: usize = match tokens[tokens.len() - 1] {
        BreakToken::Text { end_idx, .. } => end_idx,
        BreakToken::Space { idx, .. } => idx + 1,
        BreakToken::Tab { idx, .. } => idx + 1,
        BreakToken::LineBreak { idx } => idx + 1,
    };
    let mut lines = fill.lines;
    if fill.line_start <= last_end {
        lines.push(
            LineBreakResult {
                start_idx: fill.line_start,
                end_idx: last_end,
                max_font_size: fill.line_max_fs,
                has_line_break: false,
            },
        );
    }
    if lines.len() == 0 {
        lines.push(
            LineBreakResult {
                start_idx: 0,
                end_idx: text_chars.len(),
                max_font_size: 0,
                has_line_break: false,
            },
        );
    }
    lines
}


/// Lines that each run forward, follow one another in text order without overlapping, and
/// end at or before `hi`.
pub open spec fn lines_chain(lines: Seq<LineBreakResult>, hi: int) -> bool {
    &&& forall|k: int|
        0 <= k < lines.len() ==> (#[trigger] lines[k]).start_idx <= lines[k].end_idx
    &&& forall|k: int|
        0 <= k < lines.len() - 1 ==> (#[trigger] lines[k]).end_idx <= lines[k + 1].start_idx
    &&& lines.len() > 0 ==> lines.last().end_idx <= hi
}

/// Each line marked as ending in a forced break ends right after a line feed.
pub open spec fn forced_breaks_ok(lines: Seq<LineBreakResult>, text: Seq<char>) -> bool {
    forall|k: int|
        0 <= k < lines.len() && (#[trigger] lines[k]).has_line_break ==> 1 <= lines[k].end_idx
            <= text.len() && text[lines[k].end_idx - 1] == '\n'
}

proof fn lemma_forced_push(lines: Seq<LineBreakResult>, text: Seq<char>, l: LineBreakResult)
    requires
        forced_breaks_ok(lines, text),
        l.has_line_break ==> 1 <= l.end_idx <= text.len() && text[l.end_idx - 1] == '\n',
    ensures
        forced_breaks_ok(lines.push(l), text),
{
    assert forall|k: int| 0 <= k < lines.push(l).len() && (#[trigger] lines.push(l)[k]).has_line_break implies 1 <= lines.push(l)[k].end_idx
            <= text.len() && text[lines.push(l)[k].end_idx - 1] == '\n' by {
        if k < lines.len() {
            assert(lines.push(l)[k] == lines[k]);
        }
    }
}

/// Some line ends at `p` in a forced break.
pub open spec fn forced_break_at(lines: Seq<LineBreakResult>, p: int) -> bool {
    exists|k: int|
        0 <= k < lines.len() && (#[trigger] lines[k]).end_idx == p && lines[k].has_line_break
}

/// Each line feed before position `upto` ends a line.
pub open spec fn line_feeds_end_lines(lines: Seq<LineBreakResult>, text: Seq<char>, upto: int) -> bool {
    forall|j: int| 0 <= j < upto && text[j] == '\n' ==> #[trigger] forced_break_at(lines, j + 1)
}

proof fn lemma_feeds_extend(lines: Seq<LineBreakResult>, more: Seq<LineBreakResult>, text: Seq<char>, upto: int)
    requires
        line_feeds_end_lines(lines, text, upto),
    ensures
        line_feeds_end_lines(lines + more, text, upto),
{
    assert forall|j: int| 0 <= j < upto && text[j] == '\n' implies #[trigger] forced_break_at(lines + more, j + 1) by {
        assert(forced_break_at(lines, j + 1));
        let k = choose|k: int| 0 <= k < lines.len() && (#[trigger] lines[k]).end_idx == j + 1 && lines[k].has_line_break;
        assert((lines + more)[k] == lines[k]);
    }
}

/// Position of token `ti`, or the end of the text past the last token.
pub open spec fn token_pos(tokens: Seq<BreakToken>, text: Seq<char>, ti: int) -> int {
    if ti < tokens.len() {
        span_start(tokens[ti])
    } else {
        text.len() as int
    }
}

/// What holds of the filler's state before token `ti`.
pub open spec fn fill_inv(tokens: Seq<BreakToken>, text: Seq<char>, ti: int, st: FillState) -> bool {
    &&& 0 <= st.line_start <= token_pos(tokens, text, ti)
    &&& lines_chain(st.lines, st.line_start)
    &&& st.lines.len() > 0 ==> st.lines[0].start_idx == 0
    &&& st.lines.len() == 0 ==> st.line_start == 0
    &&& st.has_break ==> st.line_start <= st.break_char <= token_pos(tokens, text, ti)
    &&& forced_breaks_ok(st.lines, text)
    &&& line_feeds_end_lines(st.lines, text, token_pos(tokens, text, ti))
}

proof fn lemma_chain_push(lines: Seq<LineBreakResult>, lo: int, a: int, b: int, fs: u32, lb: bool)
    requires
        lines_chain(lines, lo),
        lo <= a <= b <= usize::MAX,
        0 <= a,
    ensures
        lines_chain(lines.push(line(a, b, fs, lb)), b),
{
    let r = lines.push(line(a, b, fs, lb));
    assert forall|k: int| 0 <= k < r.len() - 1 implies (#[trigger] r[k]).end_idx <= r[k + 1].start_idx by {
        if k < lines.len() - 1 {
            assert(r[k] == lines[k] && r[k + 1] == lines[k + 1]);
        } else {
            assert(r[k] == lines.last());
        }
    }
    assert forall|k: int| 0 <= k < r.len() implies (#[trigger] r[k]).start_idx <= r[k].end_idx by {
        if k < lines.len() {
            assert(r[k] == lines[k]);
        }
    }
}

proof fn lemma_char_break_chain(
    text: Seq<char>,
    ci: int,
    te: int,
    fs: u32,
    normal: int,
    parts: Seq<LineBreakResult>,
    ls: int,
    lw: int,
    cw: int,
    base: Seq<LineBreakResult>,
    px_size: u32,
)
    requires
        0 <= ls <= ci <= te <= usize::MAX,
        lines_chain(base + parts, ls),
        base.len() + parts.len() > 0 ==> (base + parts)[0].start_idx == 0,
        base.len() + parts.len() == 0 ==> ls == 0,
        forced_breaks_ok(base + parts, text),
    ensures
        ({
            let (p2, ls2, lw2) = spec_char_break(text, ci, te, fs, normal, parts, ls, lw, cw, px_size);
            &&& forced_breaks_ok(base + p2, text)
            &&& ls <= ls2 <= te
            &&& lines_chain(base + p2, ls2)
            &&& base.len() + p2.len() > 0 ==> (base + p2)[0].start_idx == 0
            &&& base.len() + p2.len() == 0 ==> ls2 == 0
            &&& p2.len() >= parts.len()
        }),
    decreases te - ci,
{
    if ci < te {
        let chw = char_break_width(text[ci], fs, px_size);
        if lw + chw > cw && ci > ls {
            let np = parts.push(line(ls, ci, fs, false));
            assert(base + np == (base + parts).push(line(ls, ci, fs, false)));
            lemma_chain_push(base + parts, ls, ls, ci, fs, false);
            lemma_forced_push(base + parts, text, line(ls, ci, fs, false));
            if base.len() + parts.len() == 0 {
                assert((base + np)[0] == line(ls, ci, fs, false));
            } else {
                assert((base + np)[0] == (base + parts)[0]);
            }
            lemma_char_break_chain(text, ci + 1, te, fs, normal, np, ci, chw, normal, base, px_size);
        } else {
            lemma_char_break_chain(text, ci + 1, te, fs, normal, parts, ls, lw + chw, cw, base, px_size);
        }
    }
}

proof fn lemma_skip_spaces_before(text: Seq<char>, k: int, s: int)
    requires
        0 <= k <= s < text.len(),
        text[s] != ' ',
    ensures
        k <= skip_spaces(text, k) <= s,
    decreases s - k,
{
    if k < s && text[k] == ' ' {
        lemma_skip_spaces_before(text, k + 1, s);
    }
}

proof fn lemma_step_extends(
    tokens: Seq<BreakToken>,
    text: Seq<char>,
    avail: int,
    indent: int,
    tab_w: int,
    kb: u8,
    ti: int,
    st: FillState,
    px_size: u32,
)
    requires
        0 <= ti < tokens.len(),
    ensures
        ({
            let nst = fill_step(tokens, text, avail, indent, tab_w, kb, ti, st, px_size);
            &&& nst.lines.len() >= st.lines.len()
            &&& nst.lines.subrange(0, st.lines.len() as int) == st.lines
        }),
{
    let nst = fill_step(tokens, text, avail, indent, tab_w, kb, ti, st, px_size);
    assert(nst.lines.subrange(0, st.lines.len() as int) =~= st.lines);
}

proof fn lemma_step_feeds(
    tokens: Seq<BreakToken>,
    text: Seq<char>,
    avail: int,
    indent: int,
    tab_w: int,
    kb: u8,
    ti: int,
    st: FillState,
    px_size: u32,
)
    requires
        tokens_tile(tokens, text, 0),
        text.len() <= u32::MAX,
        0 <= ti < tokens.len(),
        line_feeds_end_lines(st.lines, text, span_start(tokens[ti])),
    ensures
        line_feeds_end_lines(
            fill_step(tokens, text, avail, indent, tab_w, kb, ti, st, px_size).lines,
            text,
            span_end(tokens[ti]),
        ),
{
    let t = tokens[ti];
    assert(span_start(t) < span_end(t) <= text.len() && kind_matches(t, text));
    let nst = fill_step(tokens, text, avail, indent, tab_w, kb, ti, st, px_size);
    lemma_step_extends(tokens, text, avail, indent, tab_w, kb, ti, st, px_size);
    let more = nst.lines.subrange(st.lines.len() as int, nst.lines.len() as int);
    assert(nst.lines == st.lines + more);
    lemma_feeds_extend(st.lines, more, text, span_start(t));
    assert forall|j: int| 0 <= j < span_end(t) && text[j] == '\n' implies #[trigger] forced_break_at(nst.lines, j + 1) by {
        if j >= span_start(t) {
            match t {
                BreakToken::LineBreak { idx } => {
                    assert(j == idx);
                    let k = nst.lines.len() - 1;
                    assert(nst.lines[k].end_idx == j + 1 && nst.lines[k].has_line_break);
                },
                BreakToken::Text { .. } => {
                    assert(!is_separator(text[j]));
                },
                _ => {},
            }
        }
    }
}

#[verifier::rlimit(40)]
#[verifier::spinoff_prover]
proof fn lemma_fill_step_inv(
    tokens: Seq<BreakToken>,
    text: Seq<char>,
    avail: int,
    indent: int,
    tab_w: int,
    kb: u8,
    ti: int,
    st: FillState,
    px_size: u32,
)
    requires
        tokens_tile(tokens, text, 0),
        text.len() <= u32::MAX,
        0 <= ti < tokens.len(),
        fill_inv(tokens, text, ti, st),
    ensures
        fill_inv(tokens, text, ti + 1, fill_step(tokens, text, avail, indent, tab_w, kb, ti, st, px_size)),
{
    let t = tokens[ti];
    assert(span_start(t) < span_end(t) <= text.len() && kind_matches(t, text));
    assert(token_pos(tokens, text, ti + 1) == span_end(t)) by {
        if ti + 1 < tokens.len() {
            assert(span_end(tokens[ti]) == span_start(tokens[ti + 1]));
        } else {
            assert(tokens.last() == t);
        }
    }
    let nst = fill_step(tokens, text, avail, indent, tab_w, kb, ti, st, px_size);
    lemma_step_feeds(tokens, text, avail, indent, tab_w, kb, ti, st, px_size);
    match t {
        BreakToken::LineBreak { idx } => {
            lemma_chain_push(st.lines, st.line_start, st.line_start, idx + 1, st.line_max_fs, true);
            lemma_forced_push(st.lines, text, line(st.line_start, idx + 1, st.line_max_fs, true));
            if st.lines.len() > 0 {
                assert(nst.lines[0] == st.lines[0]);
            }
        },
        BreakToken::Tab { idx, max_font_size } => {
            let fs = max_u32(st.line_max_fs, max_font_size);
            let next_tab = tab_stop(st.line_width, tab_w);
            if next_tab > effective_width(avail, indent, st.first, px_size) && st.line_start < idx {
                if st.has_break {
                    lemma_chain_push(st.lines, st.line_start, st.line_start, st.break_char, st.fs_at_break, false);
                    lemma_forced_push(st.lines, text, line(st.line_start, st.break_char, st.fs_at_break, false));
                } else {
                    lemma_chain_push(st.lines, st.line_start, st.line_start, idx as int, fs, false);
                    lemma_forced_push(st.lines, text, line(st.line_start, idx as int, fs, false));
                }
                if st.lines.len() > 0 {
                    assert(nst.lines[0] == st.lines[0]);
                }
            }
        },
        BreakToken::Space { .. } => {},
        BreakToken::Text { start_idx, end_idx, width, max_font_size } => {
            let s = start_idx as int;
            let st0 = FillState { line_max_fs: max_u32(st.line_max_fs, max_font_size), ..st };
            let st1 = if end_idx - start_idx == 1 && s > st.line_start && char_allows_break(text, s, kb) {
                with_break(st0, s)
            } else {
                st0
            };
            if st1.line_width + width > effective_width(avail, indent, st1.first, px_size) {
                if s > st1.line_start && st1.has_break {
                    assert(!is_separator(text[s]));
                    lemma_skip_spaces_before(text, st1.break_char, s);
                    lemma_chain_push(st1.lines, st1.line_start, st1.line_start, st1.break_char, st1.fs_at_break, false);
                    lemma_forced_push(st1.lines, text, line(st1.line_start, st1.break_char, st1.fs_at_break, false));
                    if st.lines.len() > 0 {
                        assert(nst.lines[0] == st.lines[0]);
                    }
                } else {
                    let cw = if st1.first {
                        effective_width(avail, indent, true, px_size)
                    } else {
                        avail
                    };
                    assert(st1.lines + seq![] == st1.lines);
                    lemma_char_break_chain(text, s, end_idx as int, st1.line_max_fs, avail, seq![], st1.line_start, st1.line_width, cw, st1.lines, px_size);
                }
            }
        },
    }
}

proof fn lemma_fill_fold_inv(
    tokens: Seq<BreakToken>,
    text: Seq<char>,
    avail: int,
    indent: int,
    tab_w: int,
    kb: u8,
    k: int,
    px_size: u32,
)
    requires
        tokens_tile(tokens, text, 0),
        text.len() <= u32::MAX,
        0 <= k <= tokens.len(),
    ensures
        fill_inv(tokens, text, k, fill_fold(tokens, text, avail, indent, tab_w, kb, k, px_size)),
    decreases k,
{
    if k > 0 {
        lemma_fill_fold_inv(tokens, text, avail, indent, tab_w, kb, k - 1, px_size);
        lemma_fill_step_inv(tokens, text, avail, indent, tab_w, kb, k - 1, fill_fold(tokens, text, avail, indent, tab_w, kb, k - 1, px_size), px_size);
    } else {
        if tokens.len() > 0 {
            assert(span_start(tokens[0]) == 0);
        }
    }
}

/// The lines of a paragraph come in text order, whatever break unit the filler is given
/// (`fill_kb`) and the tokenizer was given (`kb`): the first starts at the paragraph's start,
/// the last ends at its end, each runs forward, and each begins at or after the end of the
/// one before (past the spaces where a line was broken). A line ends in a forced break
/// exactly where a line feed ends it: each line feed ends a line, and each line marked as
/// ending in a forced break ends right after a line feed.
pub proof fn law_lines_in_text_order(
    text: Seq<char>,
    m: Seq<CharMetrics>,
    eb: u8,
    kb: u8,
    fill_kb: u8,
    avail: int,
    indent: int,
    tab_w: u32,
    px_size: u32,
)
    requires
        text.len() <= u32::MAX,
    ensures
        ({
            let lines = spec_fill_lines(spec_tokenize(text, m, eb, kb, px_size), text, avail, indent, tab_w, fill_kb, px_size);
            &&& lines.len() > 0
            &&& lines[0].start_idx == 0
            &&& lines.last().end_idx == text.len()
            &&& lines_chain(lines, text.len() as int)
            &&& forced_breaks_ok(lines, text)
            &&& line_feeds_end_lines(lines, text, text.len() as int)
        }),
{
    let tokens = spec_tokenize(text, m, eb, kb, px_size);
    law_tokens_tile_text(text, m, eb, kb, px_size);
    if tokens.len() > 0 {
        let tw = tab_width_or_default(tab_w, px_size);
        lemma_fill_fold_inv(tokens, text, avail, indent, tw, fill_kb, tokens.len() as int, px_size);
        let st = fill_fold(tokens, text, avail, indent, tw, fill_kb, tokens.len() as int, px_size);
        assert(span_end(tokens.last()) == text.len());
        lemma_chain_push(st.lines, st.line_start, st.line_start, text.len() as int, st.line_max_fs, false);
        lemma_forced_push(st.lines, text, line(st.line_start, text.len() as int, st.line_max_fs, false));
        lemma_feeds_extend(st.lines, seq![line(st.line_start, text.len() as int, st.line_max_fs, false)], text, text.len() as int);
        assert(st.lines + seq![line(st.line_start, text.len() as int, st.line_max_fs, false)] == st.lines.push(line(st.line_start, text.len() as int, st.line_max_fs, false)));
        if st.lines.len() > 0 {
            assert(st.lines.push(line(st.line_start, text.len() as int, st.line_max_fs, false))[0] == st.lines[0]);
        }
    }
}


/// The tokens hold no tab and no line feed.
pub open spec fn only_text_and_spaces(tokens: Seq<BreakToken>) -> bool {
    forall|k: int|
        0 <= k < tokens.len() ==> match #[trigger] tokens[k] {
            BreakToken::Text { .. } | BreakToken::Space { .. } => true,
            _ => false,
        }
}

proof fn lemma_fits_fold(
    tokens: Seq<BreakToken>,
    text: Seq<char>,
    avail: int,
    indent: int,
    tab_w: int,
    kb: u8,
    k: int,
    px_size: u32,
)
    requires
        0 <= k <= tokens.len(),
        only_text_and_spaces(tokens),
        spec_recalc_width(tokens, tokens.len() as int, 0) <= effective_width(avail, indent, true, px_size),
    ensures
        ({
            let st = fill_fold(tokens, text, avail, indent, tab_w, kb, k, px_size);
            &&& st.lines.len() == 0
            &&& st.line_start == 0
            &&& st.first
            &&& st.line_width == spec_recalc_width(tokens, k, 0)
            &&& st.line_max_fs == max_token_font(tokens, k)
        }),
    decreases k,
{
    if k > 0 {
        lemma_fits_fold(tokens, text, avail, indent, tab_w, kb, k - 1, px_size);
        lemma_recalc_monotone(tokens, k, tokens.len() as int);
        assert(match tokens[k - 1] {
            BreakToken::Text { .. } | BreakToken::Space { .. } => true,
            _ => false,
        });
    }
}

proof fn lemma_recalc_monotone(tokens: Seq<BreakToken>, k: int, n: int)
    requires
        0 <= k <= n <= tokens.len(),
    ensures
        spec_recalc_width(tokens, k, 0) <= spec_recalc_width(tokens, n, 0),
    decreases n - k,
{
    if k < n {
        lemma_recalc_monotone(tokens, k, n - 1);
    }
}

/// Font size that a token brings to its line.
pub open spec fn token_font(t: BreakToken) -> u32 {
    match t {
        BreakToken::Text { max_font_size, .. } => max_font_size,
        BreakToken::Space { max_font_size, .. } => max_font_size,
        BreakToken::Tab { max_font_size, .. } => max_font_size,
        BreakToken::LineBreak { .. } => 0,
    }
}

/// The largest font size among `tokens[..k]`, 0 for none.
pub open spec fn max_token_font(tokens: Seq<BreakToken>, k: int) -> u32
    decreases k,
{
    if k <= 0 {
        0
    } else {
        max_u32(max_token_font(tokens, k - 1), token_font(tokens[k - 1]))
    }
}

/// A paragraph without tabs and line feeds whose words and spaces fit in the first line's
/// room stays on one line, whose font size is the largest of its tokens.
pub proof fn law_fitting_paragraph_is_one_line(
    text: Seq<char>,
    m: Seq<CharMetrics>,
    eb: u8,
    kb: u8,
    fill_kb: u8,
    avail: int,
    indent: int,
    tab_w: u32,
    px_size: u32,
)
    requires
        text.len() <= u32::MAX,
        only_text_and_spaces(spec_tokenize(text, m, eb, kb, px_size)),
        spec_recalc_width(
            spec_tokenize(text, m, eb, kb, px_size),
            spec_tokenize(text, m, eb, kb, px_size).len() as int,
            0,
        ) <= effective_width(avail, indent, true, px_size),
    ensures
        ({
            let lines = spec_fill_lines(spec_tokenize(text, m, eb, kb, px_size), text, avail, indent, tab_w, fill_kb, px_size);
            &&& lines.len() == 1
            &&& lines[0].start_idx == 0
            &&& lines[0].end_idx == text.len()
            &&& !lines[0].has_line_break
            &&& lines[0].max_font_size == max_token_font(
                spec_tokenize(text, m, eb, kb, px_size),
                spec_tokenize(text, m, eb, kb, px_size).len() as int,
            )
        }),
{
    let tokens = spec_tokenize(text, m, eb, kb, px_size);
    law_tokens_tile_text(text, m, eb, kb, px_size);
    if tokens.len() > 0 {
        lemma_fits_fold(tokens, text, avail, indent, tab_width_or_default(tab_w, px_size), fill_kb, tokens.len() as int, px_size);
        assert(span_end(tokens.last()) == text.len());
    }
}


/// Character `j` lies in one of the lines.
pub open spec fn in_some_line(lines: Seq<LineBreakResult>, j: int) -> bool {
    exists|k: int| 0 <= k < lines.len() && (#[trigger] lines[k]).start_idx <= j < lines[k].end_idx
}

/// Every character before `upto` other than a space lies in one of the lines.
pub open spec fn covers_text(lines: Seq<LineBreakResult>, text: Seq<char>, upto: int) -> bool {
    forall|j: int| 0 <= j < upto && text[j] != ' ' ==> #[trigger] in_some_line(lines, j)
}

/// No line feed among `text[a..b]`.
pub open spec fn no_feed_in(text: Seq<char>, a: int, b: int) -> bool {
    forall|j: int| a <= j < b ==> #[trigger] text[j] != '\n'
}

/// A line marked as ending in a forced break is not empty; an unmarked line holds no line
/// feed.
pub open spec fn flag_fits(l: LineBreakResult, text: Seq<char>) -> bool {
    if l.has_line_break {
        l.start_idx < l.end_idx
    } else {
        no_feed_in(text, l.start_idx as int, l.end_idx as int)
    }
}

pub open spec fn flags_fit(lines: Seq<LineBreakResult>, text: Seq<char>) -> bool {
    forall|k: int| 0 <= k < lines.len() ==> flag_fits(#[trigger] lines[k], text)
}

/// Number of lines that end in a forced break.
pub open spec fn count_forced(lines: Seq<LineBreakResult>) -> nat
    decreases lines.len(),
{
    if lines.len() == 0 {
        0
    } else {
        count_forced(lines.drop_last()) + if lines.last().has_line_break {
            1nat
        } else {
            0nat
        }
    }
}

/// Number of line feeds among `text[..n]`.
pub open spec fn count_feeds(text: Seq<char>, n: int) -> nat
    decreases n,
{
    if n <= 0 {
        0
    } else {
        count_feeds(text, n - 1) + if text[n - 1] == '\n' {
            1nat
        } else {
            0nat
        }
    }
}

proof fn lemma_count_push(lines: Seq<LineBreakResult>, l: LineBreakResult)
    ensures
        count_forced(lines.push(l)) == count_forced(lines) + if l.has_line_break {
            1nat
        } else {
            0nat
        },
{
    assert(lines.push(l).drop_last() == lines);
}

proof fn lemma_count_le(lines: Seq<LineBreakResult>)
    ensures
        count_forced(lines) <= lines.len(),
    decreases lines.len(),
{
    if lines.len() > 0 {
        lemma_count_le(lines.drop_last());
    }
}

proof fn lemma_count_feeds_flat(text: Seq<char>, a: int, b: int)
    requires
        0 <= a <= b,
        no_feed_in(text, a, b),
    ensures
        count_feeds(text, b) == count_feeds(text, a),
    decreases b - a,
{
    if a < b {
        assert(text[b - 1] != '\n');
        lemma_count_feeds_flat(text, a, b - 1);
    }
}

proof fn lemma_covers_push(lines: Seq<LineBreakResult>, text: Seq<char>, upto: int, l: LineBreakResult)
    requires
        covers_text(lines, text, upto),
    ensures
        covers_text(lines.push(l), text, upto),
{
    assert forall|j: int| 0 <= j < upto && text[j] != ' ' implies #[trigger] in_some_line(lines.push(l), j) by {
        assert(in_some_line(lines, j));
        let k = choose|k: int| 0 <= k < lines.len() && (#[trigger] lines[k]).start_idx <= j < lines[k].end_idx;
        assert(lines.push(l)[k] == lines[k]);
    }
}

proof fn lemma_covers_line(lines: Seq<LineBreakResult>, text: Seq<char>, upto: int, s: int, e: int, fs: u32, lb: bool)
    requires
        covers_text(lines, text, upto),
        0 <= s <= upto,
        s <= e <= usize::MAX,
    ensures
        covers_text(lines.push(line(s, e, fs, lb)), text, e),
        covers_text(lines.push(line(s, e, fs, lb)), text, upto),
{
    let r = lines.push(line(s, e, fs, lb));
    lemma_covers_push(lines, text, upto, line(s, e, fs, lb));
    assert forall|j: int| 0 <= j < e && text[j] != ' ' implies #[trigger] in_some_line(r, j) by {
        if j >= s {
            assert(r[lines.len() as int] == line(s, e, fs, lb));
        } else {
            assert(in_some_line(r, j));
        }
    }
}

proof fn lemma_skip_spaces_all(text: Seq<char>, k: int)
    requires
        0 <= k,
    ensures
        k <= skip_spaces(text, k),
        forall|j: int| k <= j < skip_spaces(text, k) ==> text[j] == ' ',
    decreases text.len() - k,
{
    if k < text.len() && text[k] == ' ' {
        lemma_skip_spaces_all(text, k + 1);
    }
}

proof fn lemma_flags_push(lines: Seq<LineBreakResult>, text: Seq<char>, l: LineBreakResult)
    requires
        flags_fit(lines, text),
        flag_fits(l, text),
    ensures
        flags_fit(lines.push(l), text),
{
    assert forall|k: int| 0 <= k < lines.push(l).len() implies flag_fits(#[trigger] lines.push(l)[k], text) by {
        if k < lines.len() {
            assert(lines.push(l)[k] == lines[k]);
        }
    }
}

proof fn lemma_char_break_cover(
    text: Seq<char>,
    ci: int,
    te: int,
    fs: u32,
    normal: int,
    parts: Seq<LineBreakResult>,
    ls: int,
    lw: int,
    cw: int,
    base: Seq<LineBreakResult>,
    px_size: u32,
)
    requires
        0 <= ls <= ci <= te <= usize::MAX,
        covers_text(base + parts, text, ls),
        flags_fit(base + parts, text),
        no_feed_in(text, ls, te),
    ensures
        ({
            let (p2, ls2, lw2) = spec_char_break(text, ci, te, fs, normal, parts, ls, lw, cw, px_size);
            &&& covers_text(base + p2, text, ls2)
            &&& flags_fit(base + p2, text)
            &&& count_forced(base + p2) == count_forced(base + parts)
            &&& ls <= ls2 <= te
        }),
    decreases te - ci,
{
    if ci < te {
        let chw = char_break_width(text[ci], fs, px_size);
        if lw + chw > cw && ci > ls {
            let l = line(ls, ci, fs, false);
            let np = parts.push(l);
            assert(base + np == (base + parts).push(l));
            lemma_covers_line(base + parts, text, ls, ls, ci, fs, false);
            lemma_flags_push(base + parts, text, l);
            lemma_count_push(base + parts, l);
            lemma_char_break_cover(text, ci + 1, te, fs, normal, np, ci, chw, normal, base, px_size);
        } else {
            lemma_char_break_cover(text, ci + 1, te, fs, normal, parts, ls, lw + chw, cw, base, px_size);
        }
    }
}

/// What the filler's state holds of the characters before token `ti`: those before the open
/// line are in lines (spaces aside), the open line holds no line feed yet, and each line feed
/// passed ended one line.
pub open spec fn fill_cover_inv(tokens: Seq<BreakToken>, text: Seq<char>, ti: int, st: FillState) -> bool {
    &&& covers_text(st.lines, text, st.line_start)
    &&& flags_fit(st.lines, text)
    &&& no_feed_in(text, st.line_start, token_pos(tokens, text, ti))
    &&& count_forced(st.lines) == count_feeds(text, token_pos(tokens, text, ti))
}

proof fn lemma_step_facts(tokens: Seq<BreakToken>, text: Seq<char>, ti: int, st: FillState)
    requires
        tokens_tile(tokens, text, 0),
        0 <= ti < tokens.len(),
        fill_inv(tokens, text, ti, st),
    ensures
        span_start(tokens[ti]) < span_end(tokens[ti]) <= text.len(),
        kind_matches(tokens[ti], text),
        token_pos(tokens, text, ti) == span_start(tokens[ti]),
        token_pos(tokens, text, ti + 1) == span_end(tokens[ti]),
        0 <= st.line_start <= span_start(tokens[ti]),
        st.has_break ==> st.line_start <= st.break_char <= span_start(tokens[ti]),
{
    let t = tokens[ti];
    assert(span_start(t) < span_end(t) <= text.len() && kind_matches(t, text));
    assert(token_pos(tokens, text, ti + 1) == span_end(t)) by {
        if ti + 1 < tokens.len() {
            assert(span_end(tokens[ti]) == span_start(tokens[ti + 1]));
        } else {
            assert(tokens.last() == t);
        }
    }
}

proof fn lemma_fill_step_cover(
    tokens: Seq<BreakToken>,
    text: Seq<char>,
    avail: int,
    indent: int,
    tab_w: int,
    kb: u8,
    ti: int,
    st: FillState,
    px_size: u32,
)
    requires
        text.len() <= u32::MAX,
        0 <= ti < tokens.len(),
        span_start(tokens[ti]) < span_end(tokens[ti]) <= text.len(),
        kind_matches(tokens[ti], text),
        token_pos(tokens, text, ti) == span_start(tokens[ti]),
        token_pos(tokens, text, ti + 1) == span_end(tokens[ti]),
        0 <= st.line_start <= span_start(tokens[ti]),
        st.has_break ==> st.line_start <= st.break_char <= span_start(tokens[ti]),
        fill_cover_inv(tokens, text, ti, st),
    ensures
        fill_cover_inv(tokens, text, ti + 1, fill_step(tokens, text, avail, indent, tab_w, kb, ti, st, px_size)),
{
    let t = tokens[ti];
    if t is Text {
        lemma_text_step_cover(tokens, text, avail, indent, tab_w, kb, ti, st, px_size);
    } else if t is Tab {
        lemma_tab_step_cover(tokens, text, avail, indent, tab_w, kb, ti, st, px_size);
    } else if t is Space {
        lemma_space_step_cover(tokens, text, avail, indent, tab_w, kb, ti, st, px_size);
    } else {
        lemma_feed_step_cover(tokens, text, avail, indent, tab_w, kb, ti, st, px_size);
    }
}

proof fn lemma_feed_step_cover(
    tokens: Seq<BreakToken>,
    text: Seq<char>,
    avail: int,
    indent: int,
    tab_w: int,
    kb: u8,
    ti: int,
    st: FillState,
    px_size: u32,
)
    requires
        text.len() <= u32::MAX,
        0 <= ti < tokens.len(),
        tokens[ti] is LineBreak,
        span_start(tokens[ti]) < span_end(tokens[ti]) <= text.len(),
        kind_matches(tokens[ti], text),
        token_pos(tokens, text, ti) == span_start(tokens[ti]),
        token_pos(tokens, text, ti + 1) == span_end(tokens[ti]),
        0 <= st.line_start <= span_start(tokens[ti]),
        st.has_break ==> st.line_start <= st.break_char <= span_start(tokens[ti]),
        fill_cover_inv(tokens, text, ti, st),
    ensures
        fill_cover_inv(tokens, text, ti + 1, fill_step(tokens, text, avail, indent, tab_w, kb, ti, st, px_size)),
{
    let t = tokens[ti];
    let p0 = span_start(t);
    let p1 = span_end(t);
    if let BreakToken::LineBreak { idx } = t {
        let l = line(st.line_start, idx + 1, st.line_max_fs, true);
        lemma_covers_line(st.lines, text, st.line_start, st.line_start, idx + 1, st.line_max_fs, true);
        lemma_flags_push(st.lines, text, l);
        lemma_count_push(st.lines, l);
    }
}

#[verifier::rlimit(30)]
proof fn lemma_space_step_cover(
    tokens: Seq<BreakToken>,
    text: Seq<char>,
    avail: int,
    indent: int,
    tab_w: int,
    kb: u8,
    ti: int,
    st: FillState,
    px_size: u32,
)
    requires
        text.len() <= u32::MAX,
        0 <= ti < tokens.len(),
        tokens[ti] is Space,
        span_start(tokens[ti]) < span_end(tokens[ti]) <= text.len(),
        kind_matches(tokens[ti], text),
        token_pos(tokens, text, ti) == span_start(tokens[ti]),
        token_pos(tokens, text, ti + 1) == span_end(tokens[ti]),
        0 <= st.line_start <= span_start(tokens[ti]),
        st.has_break ==> st.line_start <= st.break_char <= span_start(tokens[ti]),
        fill_cover_inv(tokens, text, ti, st),
    ensures
        fill_cover_inv(tokens, text, ti + 1, fill_step(tokens, text, avail, indent, tab_w, kb, ti, st, px_size)),
{
    let t = tokens[ti];
    let p0 = span_start(t);
    let p1 = span_end(t);
    let nst = fill_step(tokens, text, avail, indent, tab_w, kb, ti, st, px_size);
    assert(nst.lines == st.lines && nst.line_start == st.line_start);
    assert(no_feed_in(text, p0, p1)) by {
        assert(text[p0] == ' ');
    }
    lemma_count_feeds_flat(text, p0, p1);
}

#[verifier::rlimit(30)]
proof fn lemma_tab_step_cover(
    tokens: Seq<BreakToken>,
    text: Seq<char>,
    avail: int,
    indent: int,
    tab_w: int,
    kb: u8,
    ti: int,
    st: FillState,
    px_size: u32,
)
    requires
        text.len() <= u32::MAX,
        0 <= ti < tokens.len(),
        tokens[ti] is Tab,
        span_start(tokens[ti]) < span_end(tokens[ti]) <= text.len(),
        kind_matches(tokens[ti], text),
        token_pos(tokens, text, ti) == span_start(tokens[ti]),
        token_pos(tokens, text, ti + 1) == span_end(tokens[ti]),
        0 <= st.line_start <= span_start(tokens[ti]),
        st.has_break ==> st.line_start <= st.break_char <= span_start(tokens[ti]),
        fill_cover_inv(tokens, text, ti, st),
    ensures
        fill_cover_inv(tokens, text, ti + 1, fill_step(tokens, text, avail, indent, tab_w, kb, ti, st, px_size)),
{
    let t = tokens[ti];
    let p0 = span_start(t);
    let p1 = span_end(t);
    if let BreakToken::Tab { idx, max_font_size } = t {
        lemma_count_feeds_flat(text, p0, p1);
        let fs = max_u32(st.line_max_fs, max_font_size);
        let next_tab = tab_stop(st.line_width, tab_w);
        if next_tab > effective_width(avail, indent, st.first, px_size) && st.line_start < idx {
            if st.has_break {
                let l = line(st.line_start, st.break_char, st.fs_at_break, false);
                lemma_covers_line(st.lines, text, st.line_start, st.line_start, st.break_char, st.fs_at_break, false);
                lemma_flags_push(st.lines, text, l);
                lemma_count_push(st.lines, l);
            } else {
                let l = line(st.line_start, idx as int, fs, false);
                lemma_covers_line(st.lines, text, st.line_start, st.line_start, idx as int, fs, false);
                lemma_flags_push(st.lines, text, l);
                lemma_count_push(st.lines, l);
            }
        }
    }
}

#[verifier::rlimit(30)]
proof fn lemma_text_step_cover(
    tokens: Seq<BreakToken>,
    text: Seq<char>,
    avail: int,
    indent: int,
    tab_w: int,
    kb: u8,
    ti: int,
    st: FillState,
    px_size: u32,
)
    requires
        text.len() <= u32::MAX,
        0 <= ti < tokens.len(),
        tokens[ti] is Text,
        span_start(tokens[ti]) < span_end(tokens[ti]) <= text.len(),
        kind_matches(tokens[ti], text),
        token_pos(tokens, text, ti) == span_start(tokens[ti]),
        token_pos(tokens, text, ti + 1) == span_end(tokens[ti]),
        0 <= st.line_start <= span_start(tokens[ti]),
        st.has_break ==> st.line_start <= st.break_char <= span_start(tokens[ti]),
        fill_cover_inv(tokens, text, ti, st),
    ensures
        fill_cover_inv(tokens, text, ti + 1, fill_step(tokens, text, avail, indent, tab_w, kb, ti, st, px_size)),
{
    let t = tokens[ti];
    let p0 = span_start(t);
    let p1 = span_end(t);
    if let BreakToken::Text { start_idx, end_idx, width, max_font_size } = t {
            assert(no_feed_in(text, p0, p1)) by {
                assert forall|j: int| p0 <= j < p1 implies #[trigger] text[j] != '\n' by {
                    assert(!is_separator(text[j]));
                }
            }
            lemma_count_feeds_flat(text, p0, p1);
            let s = start_idx as int;
            let st0 = FillState { line_max_fs: max_u32(st.line_max_fs, max_font_size), ..st };
            let st1 = if end_idx - start_idx == 1 && s > st.line_start && char_allows_break(text, s, kb) {
                with_break(st0, s)
            } else {
                st0
            };
            if st1.line_width + width > effective_width(avail, indent, st1.first, px_size) {
                if s > st1.line_start && st1.has_break {
                    assert(!is_separator(text[s]));
                    let l = line(st1.line_start, st1.break_char, st1.fs_at_break, false);
                    lemma_covers_line(st1.lines, text, st1.line_start, st1.line_start, st1.break_char, st1.fs_at_break, false);
                    lemma_flags_push(st1.lines, text, l);
                    lemma_count_push(st1.lines, l);
                    lemma_skip_spaces_all(text, st1.break_char);
                    lemma_skip_spaces_before(text, st1.break_char, s);
                } else {
                    let cw = if st1.first {
                        effective_width(avail, indent, true, px_size)
                    } else {
                        avail
                    };
                    assert(st1.lines + seq![] == st1.lines);
                    lemma_char_break_cover(text, s, end_idx as int, st1.line_max_fs, avail, seq![], st1.line_start, st1.line_width, cw, st1.lines, px_size);
                }
            }
    }
}

proof fn lemma_fill_fold_cover(
    tokens: Seq<BreakToken>,
    text: Seq<char>,
    avail: int,
    indent: int,
    tab_w: int,
    kb: u8,
    k: int,
    px_size: u32,
)
    requires
        tokens_tile(tokens, text, 0),
        text.len() <= u32::MAX,
        0 <= k <= tokens.len(),
    ensures
        fill_inv(tokens, text, k, fill_fold(tokens, text, avail, indent, tab_w, kb, k, px_size)),
        fill_cover_inv(tokens, text, k, fill_fold(tokens, text, avail, indent, tab_w, kb, k, px_size)),
    decreases k,
{
    lemma_fill_fold_inv(tokens, text, avail, indent, tab_w, kb, k, px_size);
    if k > 0 {
        lemma_fill_fold_cover(tokens, text, avail, indent, tab_w, kb, k - 1, px_size);
        lemma_step_facts(tokens, text, k - 1, fill_fold(tokens, text, avail, indent, tab_w, kb, k - 1, px_size));
        lemma_fill_step_cover(tokens, text, avail, indent, tab_w, kb, k - 1, fill_fold(tokens, text, avail, indent, tab_w, kb, k - 1, px_size), px_size);
    } else {
        if tokens.len() > 0 {
            assert(span_start(tokens[0]) == 0);
        }
    }
}

proof fn lemma_lines_cover(
    text: Seq<char>,
    m: Seq<CharMetrics>,
    eb: u8,
    kb: u8,
    fill_kb: u8,
    avail: int,
    indent: int,
    tab_w: u32,
    px_size: u32,
)
    requires
        text.len() <= u32::MAX,
    ensures
        ({
            let lines = spec_fill_lines(spec_tokenize(text, m, eb, kb, px_size), text, avail, indent, tab_w, fill_kb, px_size);
            &&& covers_text(lines, text, text.len() as int)
            &&& flags_fit(lines, text)
            &&& count_forced(lines) == count_feeds(text, text.len() as int)
            &&& lines.len() > 0
            &&& !lines.last().has_line_break
        }),
{
    let tokens = spec_tokenize(text, m, eb, kb, px_size);
    law_tokens_tile_text(text, m, eb, kb, px_size);
    let lines = spec_fill_lines(tokens, text, avail, indent, tab_w, fill_kb, px_size);
    if tokens.len() > 0 {
        let tw = tab_width_or_default(tab_w, px_size);
        lemma_fill_fold_cover(tokens, text, avail, indent, tw, fill_kb, tokens.len() as int, px_size);
        let st = fill_fold(tokens, text, avail, indent, tw, fill_kb, tokens.len() as int, px_size);
        assert(span_end(tokens.last()) == text.len());
        let l = line(st.line_start, text.len() as int, st.line_max_fs, false);
        lemma_covers_line(st.lines, text, st.line_start, st.line_start, text.len() as int, st.line_max_fs, false);
        lemma_flags_push(st.lines, text, l);
        lemma_count_push(st.lines, l);
        assert(st.line_start <= text.len());
        assert(token_pos(tokens, text, tokens.len() as int) == text.len());
        assert(no_feed_in(text, st.line_start, text.len() as int));
        assert(flag_fits(l, text));
        assert(lines == st.lines.push(l));
        assert(lines.last() == l);
        assert(covers_text(lines, text, text.len() as int));
        assert(flags_fit(lines, text));
        assert(count_forced(st.lines) == count_feeds(text, text.len() as int));
    } else {
        assert(text.len() == 0);
        assert(count_forced(lines.drop_last()) == 0);
        assert(count_forced(lines) == 0);
        assert(count_feeds(text, 0) == 0);
        assert(lines == seq![line(0, 0, 0, false)]);
        assert(lines.drop_last() == Seq::<LineBreakResult>::empty());
        assert(flag_fits(lines[0], text));
    }
}

/// No character is lost in filling: every character other than a space lies in one of the
/// lines; only spaces where a line was broken may be left out of every line.
pub proof fn law_no_character_lost(
    text: Seq<char>,
    m: Seq<CharMetrics>,
    eb: u8,
    kb: u8,
    fill_kb: u8,
    avail: int,
    indent: int,
    tab_w: u32,
    px_size: u32,
)
    requires
        text.len() <= u32::MAX,
    ensures
        forall|j: int|
            0 <= j < text.len() && text[j] != ' ' ==> #[trigger] in_some_line(
                spec_fill_lines(spec_tokenize(text, m, eb, kb, px_size), text, avail, indent, tab_w, fill_kb, px_size),
                j,
            ),
{
    lemma_lines_cover(text, m, eb, kb, fill_kb, avail, indent, tab_w, px_size);
}

/// A line ends in a forced break exactly when it is not empty and ends right after a line
/// feed; no other line holds a line feed. So there are as many forced breaks as line feeds,
/// and at least one line more than line feeds.
pub proof fn law_forced_breaks_match_line_feeds(
    text: Seq<char>,
    m: Seq<CharMetrics>,
    eb: u8,
    kb: u8,
    fill_kb: u8,
    avail: int,
    indent: int,
    tab_w: u32,
    px_size: u32,
)
    requires
        text.len() <= u32::MAX,
    ensures
        ({
            let lines = spec_fill_lines(spec_tokenize(text, m, eb, kb, px_size), text, avail, indent, tab_w, fill_kb, px_size);
            &&& forall|k: int|
                0 <= k < lines.len() ==> ((#[trigger] lines[k]).has_line_break <==> (
                lines[k].start_idx < lines[k].end_idx && text[lines[k].end_idx - 1] == '\n'))
            &&& count_forced(lines) == count_feeds(text, text.len() as int)
            &&& lines.len() >= count_feeds(text, text.len() as int) + 1
        }),
{
    let lines = spec_fill_lines(spec_tokenize(text, m, eb, kb, px_size), text, avail, indent, tab_w, fill_kb, px_size);
    lemma_lines_cover(text, m, eb, kb, fill_kb, avail, indent, tab_w, px_size);
    law_lines_in_text_order(text, m, eb, kb, fill_kb, avail, indent, tab_w, px_size);
    assert forall|k: int| 0 <= k < lines.len() implies ((#[trigger] lines[k]).has_line_break <==> (
        lines[k].start_idx < lines[k].end_idx && text[lines[k].end_idx - 1] == '\n')) by {
        assert(flag_fits(lines[k], text));
        if !lines[k].has_line_break && lines[k].start_idx < lines[k].end_idx {
            assert(text[lines[k].end_idx - 1] != '\n');
        }
    }
    lemma_count_le(lines.drop_last());
    assert(count_forced(lines) == count_forced(lines.drop_last()));
}

/// The lines that breaking a word character by character completes, from an open line that
/// starts at `ls0` to a new open line that starts at `ls2`: none when `ls2 == ls0`;
/// otherwise the first starts at `ls0`, each ends where the next starts, the last ends at
/// `ls2`; each runs forward, has font size `fs` and is not marked as a forced break.
pub open spec fn char_break_shape(parts: Seq<LineBreakResult>, ls0: int, ls2: int, fs: u32) -> bool {
    &&& parts.len() == 0 ==> ls2 == ls0
    &&& parts.len() > 0 ==> parts[0].start_idx == ls0 && parts.last().end_idx == ls2
    &&& forall|k: int|
        0 <= k < parts.len() ==> (#[trigger] parts[k]).start_idx < parts[k].end_idx
            && !parts[k].has_line_break && parts[k].max_font_size == fs
    &&& forall|k: int|
        0 <= k < parts.len() - 1 ==> (#[trigger] parts[k]).end_idx == parts[k + 1].start_idx
}

proof fn lemma_char_break_shape(
    text: Seq<char>,
    ci: int,
    te: int,
    fs: u32,
    normal: int,
    parts: Seq<LineBreakResult>,
    ls0: int,
    ls: int,
    lw: int,
    cw: int,
    px_size: u32,
)
    requires
        0 <= ls0 <= ls <= ci <= te <= usize::MAX,
        char_break_shape(parts, ls0, ls, fs),
        parts.len() > 0 ==> ls < ci,
    ensures
        ({
            let (p2, ls2, lw2) = spec_char_break(text, ci, te, fs, normal, parts, ls, lw, cw, px_size);
            &&& char_break_shape(p2, ls0, ls2, fs)
            &&& ls <= ls2 <= te
            &&& p2.len() > parts.len() ==> ci <= ls2 < te
            &&& p2.len() > 0 ==> ls2 < te
        }),
    decreases te - ci,
{
    if ci < te {
        let chw = char_break_width(text[ci], fs, px_size);
        if lw + chw > cw && ci > ls {
            let np = parts.push(line(ls, ci, fs, false));
            assert forall|k: int| 0 <= k < np.len() implies (#[trigger] np[k]).start_idx < np[k].end_idx
                && !np[k].has_line_break && np[k].max_font_size == fs by {
                if k < parts.len() {
                    assert(np[k] == parts[k]);
                }
            }
            assert forall|k: int| 0 <= k < np.len() - 1 implies (#[trigger] np[k]).end_idx
                == np[k + 1].start_idx by {
                assert(np[k] == parts[k]);
                if k + 1 < parts.len() {
                    assert(np[k + 1] == parts[k + 1]);
                }
            }
            if parts.len() > 0 {
                assert(np[0] == parts[0]);
            }
            lemma_char_break_shape(text, ci + 1, te, fs, normal, np, ls0, ci, chw, normal, px_size);
        } else {
            lemma_char_break_shape(text, ci + 1, te, fs, normal, parts, ls0, ls, lw + chw, cw, px_size);
        }
    }
}

/// Breaking a word `text[ts..te]` character by character, on an open line that starts at
/// `ls` (at or before the word): the lines it completes follow one another from `ls` without
/// gaps, each non-empty, with the line's font size and no forced break, and the new open line
/// starts where the last of them ends: inside the word when some line was completed, at `ls`
/// otherwise.
pub proof fn law_char_break_lines(
    text: Seq<char>,
    ts: int,
    te: int,
    fs: u32,
    normal: int,
    ls: int,
    lw: int,
    cw: int,
    px_size: u32,
)
    requires
        0 <= ls <= ts <= te <= usize::MAX,
    ensures
        ({
            let (parts, ls2, lw2) = spec_char_break(text, ts, te, fs, normal, seq![], ls, lw, cw, px_size);
            &&& char_break_shape(parts, ls, ls2, fs)
            &&& ls <= ls2 <= te
            &&& parts.len() > 0 ==> ts <= ls2 < te
        }),
{
    lemma_char_break_shape(text, ts, te, fs, normal, seq![], ls, ls, lw, cw, px_size);
}

/// Width that character breaking gives a full-width character: the line's font size, at
/// least 12 px.
pub open spec fn full_char_width(fs: u32, px_size: u32) -> int {
    if fs > 12 * px_size {
        fs as int
    } else {
        12 * px_size
    }
}

proof fn lemma_char_break_same_class(
    t1: Seq<char>,
    t2: Seq<char>,
    ci: int,
    te: int,
    fs: u32,
    normal: int,
    parts: Seq<LineBreakResult>,
    ls: int,
    lw: int,
    cw: int,
    px_size: u32,
)
    requires
        px_size_ok(px_size),
        forall|i: int| ci <= i < te ==> spec_is_cjk_char(#[trigger] t1[i]) == spec_is_cjk_char(t2[i]),
    ensures
        spec_char_break(t1, ci, te, fs, normal, parts, ls, lw, cw, px_size) == spec_char_break(
            t2,
            ci,
            te,
            fs,
            normal,
            parts,
            ls,
            lw,
            cw,
            px_size,
        ),
    decreases te - ci,
{
    if ci < te {
        assert(spec_is_cjk_char(t1[ci]) == spec_is_cjk_char(t2[ci]));
        let chw = char_break_width(t1[ci], fs, px_size);
        assert(chw == char_break_width(t2[ci], fs, px_size));
        if lw + chw > cw && ci > ls {
            lemma_char_break_same_class(t1, t2, ci + 1, te, fs, normal, parts.push(line(ls, ci, fs, false)), ci, chw, normal, px_size);
        } else {
            lemma_char_break_same_class(t1, t2, ci + 1, te, fs, normal, parts, ls, lw + chw, cw, px_size);
        }
    }
}

/// In character breaking a character counts by its width class alone: two words whose
/// characters are full-width at the same places (Hangul, Hanja, kana or full-width forms
/// alike) break into the same lines with the same widths.
pub proof fn law_char_break_counts_width_class(
    t1: Seq<char>,
    t2: Seq<char>,
    ts: int,
    te: int,
    fs: u32,
    normal: int,
    ls: int,
    lw: int,
    cw: int,
    px_size: u32,
)
    requires
        px_size_ok(px_size),
        forall|i: int| ts <= i < te ==> spec_is_cjk_char(#[trigger] t1[i]) == spec_is_cjk_char(t2[i]),
    ensures
        spec_char_break(t1, ts, te, fs, normal, seq![], ls, lw, cw, px_size) == spec_char_break(
            t2,
            ts,
            te,
            fs,
            normal,
            seq![],
            ls,
            lw,
            cw,
            px_size,
        ),
{
    lemma_char_break_same_class(t1, t2, ts, te, fs, normal, seq![], ls, lw, cw, px_size);
}

proof fn lemma_char_break_full_fits(
    text: Seq<char>,
    ci: int,
    te: int,
    fs: u32,
    normal: int,
    parts: Seq<LineBreakResult>,
    ls: int,
    lw: int,
    cw: int,
    px_size: u32,
)
    requires
        px_size_ok(px_size),
        ci <= te,
        forall|i: int| ci <= i < te ==> spec_is_cjk_char(#[trigger] text[i]),
        lw + (te - ci) * full_char_width(fs, px_size) <= cw,
    ensures
        spec_char_break(text, ci, te, fs, normal, parts, ls, lw, cw, px_size) == (
            parts,
            ls,
            lw + (te - ci) * full_char_width(fs, px_size),
        ),
    decreases te - ci,
{
    let w = full_char_width(fs, px_size);
    if ci < te {
        assert(spec_is_cjk_char(text[ci]));
        assert(char_break_width(text[ci], fs, px_size) == w);
        assert((te - ci) * w == w + (te - (ci + 1)) * w) by (nonlinear_arith);
        assert(w >= 0);
        assert((te - (ci + 1)) * w >= 0) by (nonlinear_arith)
            requires
                te - (ci + 1) >= 0,
                w >= 0,
        ;
        lemma_char_break_full_fits(text, ci + 1, te, fs, normal, parts, ls, lw + w, cw, px_size);
    } else {
        assert((te - ci) * w == 0) by (nonlinear_arith)
            requires
                te == ci,
        ;
    }
}

/// Every full-width character, Hangul as much as Hanja, counts the whole font size (at least
/// 12 px) in character breaking: a word of full-width characters whose total at that width
/// fits in what is left of the line stays on it, which grows by exactly that total.
pub proof fn law_char_break_full_width_fits(
    text: Seq<char>,
    ts: int,
    te: int,
    fs: u32,
    normal: int,
    ls: int,
    lw: int,
    cw: int,
    px_size: u32,
)
    requires
        px_size_ok(px_size),
        ts <= te,
        forall|i: int| ts <= i < te ==> spec_is_cjk_char(#[trigger] text[i]),
        lw + (te - ts) * full_char_width(fs, px_size) <= cw,
    ensures
        spec_char_break(text, ts, te, fs, normal, seq![], ls, lw, cw, px_size) == (
            Seq::<LineBreakResult>::empty(),
            ls,
            lw + (te - ts) * full_char_width(fs, px_size),
        ),
{
    lemma_char_break_full_fits(text, ts, te, fs, normal, seq![], ls, lw, cw, px_size);
}

/// The largest font size among `tokens[..k]` that start at a position in `[lo, hi]`, 0 for
/// none.
pub open spec fn max_font_span(tokens: Seq<BreakToken>, k: int, lo: int, hi: int) -> u32
    decreases k,
{
    if k <= 0 {
        0
    } else {
        let t = tokens[k - 1];
        max_u32(
            max_font_span(tokens, k - 1, lo, hi),
            if lo <= span_start(t) <= hi {
                token_font(t)
            } else {
                0
            },
        )
    }
}

/// The room every line has, first or not.
pub open spec fn least_room(avail: int, indent: int, px_size: u32) -> int {
    let a = effective_width(avail, indent, true, px_size);
    let b = effective_width(avail, indent, false, px_size);
    if a < b {
        a
    } else {
        b
    }
}

/// Every stretch of words without a space or line feed between them fits in `room`: whenever
/// the tokens among the first `c` that start at or after `p` are all words, their widths add
/// up to at most `room`.
pub open spec fn words_fit(tokens: Seq<BreakToken>, room: int) -> bool {
    forall|p: int, c: int|
        0 < c <= tokens.len() && (forall|j: int|
            0 <= j < c && span_start(tokens[j]) >= p ==> (#[trigger] tokens[j]) is Text)
            ==> #[trigger] spec_recalc_width(tokens, c, p) <= room
}

/// No word of line `l` reaches past `room`: for each word in the line, the widths of the
/// line's words and spaces up to and including it add up to at most `room`.
pub open spec fn line_text_fits(tokens: Seq<BreakToken>, l: LineBreakResult, room: int) -> bool {
    forall|j: int|
        0 <= j < tokens.len() && (#[trigger] tokens[j]) is Text && l.start_idx <= span_start(
            tokens[j],
        ) && span_end(tokens[j]) <= l.end_idx ==> spec_recalc_width(tokens, j + 1, l.start_idx as int)
            <= room
}

proof fn lemma_tile_order(tokens: Seq<BreakToken>, text: Seq<char>, i: int, j: int)
    requires
        tokens_tile(tokens, text, 0),
        0 <= i < j < tokens.len(),
    ensures
        span_end(tokens[i]) <= span_start(tokens[j]),
    decreases j - i,
{
    assert(span_end(tokens[j - 1]) == span_start(tokens[j]));
    if i < j - 1 {
        lemma_tile_order(tokens, text, i, j - 1);
        assert(span_start(tokens[j - 1]) < span_end(tokens[j - 1]));
    }
}

/// In a tiling, tokens come in the order of their positions.
proof fn lemma_tile_before(tokens: Seq<BreakToken>, text: Seq<char>, j: int, ti: int)
    requires
        tokens_tile(tokens, text, 0),
        0 <= j < tokens.len(),
        0 <= ti < tokens.len(),
    ensures
        span_start(tokens[j]) < span_start(tokens[ti]) <==> j < ti,
        span_end(tokens[j]) <= span_start(tokens[ti]) ==> j < ti,
{
    assert(span_start(tokens[j]) < span_end(tokens[j]));
    assert(span_start(tokens[ti]) < span_end(tokens[ti]));
    if j < ti {
        lemma_tile_order(tokens, text, j, ti);
    } else if ti < j {
        lemma_tile_order(tokens, text, ti, j);
    }
}

proof fn lemma_span_monotone(tokens: Seq<BreakToken>, k1: int, k2: int, lo: int, hi: int)
    requires
        k1 <= k2,
    ensures
        max_font_span(tokens, k1, lo, hi) <= max_font_span(tokens, k2, lo, hi),
    decreases k2 - k1,
{
    if k1 < k2 {
        lemma_span_monotone(tokens, k1, k2 - 1, lo, hi);
    }
}

proof fn lemma_span_upper(tokens: Seq<BreakToken>, k: int, lo: int, h1: int, h2: int)
    requires
        h1 <= h2,
        forall|j: int| 0 <= j < k ==> span_start(#[trigger] tokens[j]) <= h1,
    ensures
        max_font_span(tokens, k, lo, h1) == max_font_span(tokens, k, lo, h2),
    decreases k,
{
    if k > 0 {
        lemma_span_upper(tokens, k - 1, lo, h1, h2);
        assert(span_start(tokens[k - 1]) <= h1);
    }
}

proof fn lemma_recalc_none(tokens: Seq<BreakToken>, k: int, p: int)
    requires
        forall|j: int| 0 <= j < k ==> span_start(#[trigger] tokens[j]) < p,
    ensures
        spec_recalc_width(tokens, k, p) == 0,
    decreases k,
{
    if k > 0 {
        lemma_recalc_none(tokens, k - 1, p);
        assert(span_start(tokens[k - 1]) < p);
    }
}

/// What the filler's state holds, on a paragraph without tabs, of the lines closed so far and
/// of the open line before token `ti`.
pub open spec fn fit_inv(
    tokens: Seq<BreakToken>,
    text: Seq<char>,
    avail: int,
    indent: int,
    px_size: u32,
    ti: int,
    st: FillState,
) -> bool {
    &&& st.line_width == spec_recalc_width(tokens, ti, st.line_start)
    &&& st.first == (st.lines.len() == 0)
    &&& forall|k: int|
        0 <= k < st.lines.len() ==> line_text_fits(
            tokens,
            #[trigger] st.lines[k],
            effective_width(avail, indent, k == 0, px_size),
        ) && st.lines[k].max_font_size <= max_font_span(
            tokens,
            ti,
            st.lines[k].start_idx as int,
            st.lines[k].end_idx as int,
        )
    &&& forall|j: int|
        0 <= j < ti && (#[trigger] tokens[j]) is Text && span_start(tokens[j]) >= st.line_start
            ==> spec_recalc_width(tokens, j + 1, st.line_start) <= effective_width(
            avail,
            indent,
            st.first,
            px_size,
        )
    &&& st.line_max_fs <= max_font_span(tokens, ti, st.line_start, text.len() as int)
    &&& st.has_break ==> st.fs_at_break <= max_font_span(tokens, ti, st.line_start, st.break_char)
    &&& st.has_break ==> forall|j: int|
        0 <= j < ti && span_start(#[trigger] tokens[j]) > st.break_char ==> tokens[j] is Text
    &&& !st.has_break ==> forall|j: int|
        0 <= j < ti && span_start(#[trigger] tokens[j]) >= st.line_start ==> tokens[j] is Text
    &&& forall|j: int|
        0 <= j < ti && span_start(#[trigger] tokens[j]) >= st.line_start ==> !(tokens[j] is LineBreak)
}

/// The tokens hold no tab.
pub open spec fn no_tabs(tokens: Seq<BreakToken>) -> bool {
    forall|k: int| 0 <= k < tokens.len() ==> !((#[trigger] tokens[k]) is Tab)
}

proof fn lemma_fit_space(
    tokens: Seq<BreakToken>,
    text: Seq<char>,
    avail: int,
    indent: int,
    tab_w: int,
    kb: u8,
    ti: int,
    st: FillState,
    px_size: u32,
)
    requires
        0 <= ti < tokens.len(),
        tokens[ti] is Space,
        span_start(tokens[ti]) < span_end(tokens[ti]) <= text.len(),
        forall|j: int| 0 <= j < ti ==> span_start(#[trigger] tokens[j]) < span_start(tokens[ti]),
        0 <= st.line_start <= span_start(tokens[ti]),
        fit_inv(tokens, text, avail, indent, px_size, ti, st),
    ensures
        fit_inv(tokens, text, avail, indent, px_size, ti + 1, fill_step(tokens, text, avail, indent, tab_w, kb, ti, st, px_size)),
{
    let t = tokens[ti];
    let s = span_start(t);
    let ls = st.line_start;
    lemma_span_upper(tokens, ti, ls, s, text.len() as int);
    let nst = fill_step(tokens, text, avail, indent, tab_w, kb, ti, st, px_size);
    assert forall|k: int| 0 <= k < nst.lines.len() implies line_text_fits(
        tokens,
        #[trigger] nst.lines[k],
        effective_width(avail, indent, k == 0, px_size),
    ) && nst.lines[k].max_font_size <= max_font_span(
        tokens,
        ti + 1,
        nst.lines[k].start_idx as int,
        nst.lines[k].end_idx as int,
    ) by {
        lemma_span_monotone(tokens, ti, ti + 1, nst.lines[k].start_idx as int, nst.lines[k].end_idx as int);
    }
}

proof fn lemma_fit_feed(
    tokens: Seq<BreakToken>,
    text: Seq<char>,
    avail: int,
    indent: int,
    tab_w: int,
    kb: u8,
    ti: int,
    st: FillState,
    px_size: u32,
)
    requires
        0 <= ti < tokens.len(),
        tokens[ti] is LineBreak,
        text.len() <= u32::MAX,
        forall|j: int| 0 <= j < tokens.len() && j != ti && span_end(#[trigger] tokens[j]) <= span_end(tokens[ti]) ==> j < ti,
        span_start(tokens[ti]) < span_end(tokens[ti]) <= text.len(),
        forall|j: int| 0 <= j < ti ==> span_start(#[trigger] tokens[j]) < span_start(tokens[ti]),
        0 <= st.line_start <= span_start(tokens[ti]),
        fit_inv(tokens, text, avail, indent, px_size, ti, st),
    ensures
        fit_inv(tokens, text, avail, indent, px_size, ti + 1, fill_step(tokens, text, avail, indent, tab_w, kb, ti, st, px_size)),
{
    let t = tokens[ti];
    let s = span_start(t);
    let ls = st.line_start;
    lemma_span_upper(tokens, ti, ls, s, text.len() as int);
    let nst = fill_step(tokens, text, avail, indent, tab_w, kb, ti, st, px_size);
    let e = span_end(t);
    lemma_recalc_none(tokens, ti + 1, e);
    lemma_span_monotone(tokens, ti, ti + 1, ls, e);
    lemma_span_upper(tokens, ti, ls, s, e);
    let k0 = st.lines.len() as int;
    assert forall|k: int| 0 <= k < nst.lines.len() implies line_text_fits(
        tokens,
        #[trigger] nst.lines[k],
        effective_width(avail, indent, k == 0, px_size),
    ) && nst.lines[k].max_font_size <= max_font_span(
        tokens,
        ti + 1,
        nst.lines[k].start_idx as int,
        nst.lines[k].end_idx as int,
    ) by {
        if k < k0 {
            assert(nst.lines[k] == st.lines[k]);
            lemma_span_monotone(tokens, ti, ti + 1, st.lines[k].start_idx as int, st.lines[k].end_idx as int);
        } else {
            let l = nst.lines[k];
            assert(l.start_idx == ls && l.end_idx == e);
            assert forall|j: int|
                0 <= j < tokens.len() && (#[trigger] tokens[j]) is Text && l.start_idx <= span_start(tokens[j])
                    && span_end(tokens[j]) <= l.end_idx implies spec_recalc_width(
                tokens,
                j + 1,
                l.start_idx as int,
            ) <= effective_width(avail, indent, k == 0, px_size) by {
                assert(j < ti);
            }
        }
    }
}

/// The state after a word is weighed, before any line is closed for it.
pub open spec fn text_st1(text: Seq<char>, t: BreakToken, kb: u8, st: FillState) -> FillState {
    match t {
        BreakToken::Text { start_idx, end_idx, max_font_size, .. } => {
            let st0 = FillState { line_max_fs: max_u32(st.line_max_fs, max_font_size), ..st };
            if end_idx - start_idx == 1 && start_idx > st.line_start && char_allows_break(
                text,
                start_idx as int,
                kb,
            ) {
                with_break(st0, start_idx as int)
            } else {
                st0
            }
        },
        _ => st,
    }
}

proof fn lemma_fit_text_st1(
    tokens: Seq<BreakToken>,
    text: Seq<char>,
    avail: int,
    indent: int,
    kb: u8,
    ti: int,
    st: FillState,
    px_size: u32,
)
    requires
        0 <= ti < tokens.len(),
        tokens[ti] is Text,
        span_start(tokens[ti]) < span_end(tokens[ti]) <= text.len(),
        kind_matches(tokens[ti], text),
        forall|j: int| 0 <= j < ti ==> span_start(#[trigger] tokens[j]) < span_start(tokens[ti]),
        forall|j: int| 0 <= j < tokens.len() && span_end(#[trigger] tokens[j]) <= span_start(tokens[ti]) ==> j < ti,
        forall|j: int| 0 <= j < tokens.len() && (#[trigger] tokens[j]) is Space ==> text[span_start(tokens[j])] == ' ',
        no_tabs(tokens),
        0 <= st.line_start <= span_start(tokens[ti]),
        st.has_break ==> st.line_start <= st.break_char <= span_start(tokens[ti]),
        words_fit(tokens, least_room(avail, indent, px_size)),
        fit_inv(tokens, text, avail, indent, px_size, ti, st),
    ensures
        ({
            let st1 = text_st1(text, tokens[ti], kb, st);
            let s = span_start(tokens[ti]);
            &&& st1.lines == st.lines
            &&& st1.line_start == st.line_start
            &&& st1.line_width == st.line_width
            &&& st1.first == st.first
            &&& st1.line_max_fs <= max_font_span(tokens, ti + 1, st.line_start, text.len() as int)
            &&& st1.has_break ==> st1.fs_at_break <= max_font_span(tokens, ti + 1, st.line_start, st1.break_char)
            &&& st1.has_break ==> st.line_start <= st1.break_char <= s
            &&& st1.has_break ==> forall|j: int|
                0 <= j < ti + 1 && span_start(#[trigger] tokens[j]) > st1.break_char ==> tokens[j] is Text
            &&& !st1.has_break ==> forall|j: int|
                0 <= j < ti + 1 && span_start(#[trigger] tokens[j]) >= st.line_start ==> tokens[j] is Text
        }),
{
    let t = tokens[ti];
    let s = span_start(t);
    let ls = st.line_start;
    lemma_span_upper(tokens, ti, ls, s, text.len() as int);
    let st1 = text_st1(text, t, kb, st);
    if st1.has_break && !st.has_break {
        lemma_span_monotone(tokens, ti, ti + 1, ls, s);
    }
    if st.has_break && st1.has_break && st1.break_char == st.break_char {
        lemma_span_monotone(tokens, ti, ti + 1, ls, st.break_char);
    }
}

#[verifier::rlimit(40)]
proof fn lemma_fit_text(
    tokens: Seq<BreakToken>,
    text: Seq<char>,
    avail: int,
    indent: int,
    tab_w: int,
    kb: u8,
    ti: int,
    st: FillState,
    px_size: u32,
)
    requires
        0 <= ti < tokens.len(),
        tokens[ti] is Text,
        span_start(tokens[ti]) < span_end(tokens[ti]) <= text.len(),
        kind_matches(tokens[ti], text),
        forall|j: int| 0 <= j < ti ==> span_start(#[trigger] tokens[j]) < span_start(tokens[ti]),
        forall|j: int| 0 <= j < tokens.len() && span_end(#[trigger] tokens[j]) <= span_start(tokens[ti]) ==> j < ti,
        forall|j: int| 0 <= j < tokens.len() && (#[trigger] tokens[j]) is Space ==> text[span_start(tokens[j])] == ' ',
        no_tabs(tokens),
        0 <= st.line_start <= span_start(tokens[ti]),
        st.has_break ==> st.line_start <= st.break_char <= span_start(tokens[ti]),
        words_fit(tokens, least_room(avail, indent, px_size)),
        fit_inv(tokens, text, avail, indent, px_size, ti, st),
    ensures
        fit_inv(tokens, text, avail, indent, px_size, ti + 1, fill_step(tokens, text, avail, indent, tab_w, kb, ti, st, px_size)),
{
    let t = tokens[ti];
    let s = span_start(t);
    let ls = st.line_start;
    let room = effective_width(avail, indent, st.first, px_size);
    let least = least_room(avail, indent, px_size);
    lemma_fit_text_st1(tokens, text, avail, indent, kb, ti, st, px_size);
    let st1 = text_st1(text, t, kb, st);
    let nst = fill_step(tokens, text, avail, indent, tab_w, kb, ti, st, px_size);
    if let BreakToken::Text { start_idx, end_idx, width, max_font_size } = t {
        assert(spec_recalc_width(tokens, ti + 1, ls) == st.line_width + width);
        if st1.line_width + width > room {
            if s > st1.line_start && st1.has_break {
                lemma_fit_text_break(tokens, text, avail, indent, tab_w, kb, ti, st, px_size);
            } else {
                assert forall|j: int| 0 <= j < ti + 1 && span_start(tokens[j]) >= ls implies (#[trigger] tokens[j]) is Text by {
                    if j < ti && s == ls {
                        assert(span_start(tokens[j]) < s);
                    }
                }
                assert(spec_recalc_width(tokens, ti + 1, ls) <= least);
                assert(false);
            }
        } else {
            assert(nst == FillState { line_width: st1.line_width + width, ..st1 });
            assert forall|k: int| 0 <= k < nst.lines.len() implies line_text_fits(
                tokens,
                #[trigger] nst.lines[k],
                effective_width(avail, indent, k == 0, px_size),
            ) && nst.lines[k].max_font_size <= max_font_span(
                tokens,
                ti + 1,
                nst.lines[k].start_idx as int,
                nst.lines[k].end_idx as int,
            ) by {
                lemma_span_monotone(tokens, ti, ti + 1, nst.lines[k].start_idx as int, nst.lines[k].end_idx as int);
            }
        }
    }
}

#[verifier::rlimit(40)]
proof fn lemma_fit_text_break(
    tokens: Seq<BreakToken>,
    text: Seq<char>,
    avail: int,
    indent: int,
    tab_w: int,
    kb: u8,
    ti: int,
    st: FillState,
    px_size: u32,
)
    requires
        0 <= ti < tokens.len(),
        tokens[ti] is Text,
        span_start(tokens[ti]) < span_end(tokens[ti]) <= text.len(),
        kind_matches(tokens[ti], text),
        forall|j: int| 0 <= j < ti ==> span_start(#[trigger] tokens[j]) < span_start(tokens[ti]),
        forall|j: int| 0 <= j < tokens.len() && span_end(#[trigger] tokens[j]) <= span_start(tokens[ti]) ==> j < ti,
        forall|j: int| 0 <= j < tokens.len() && (#[trigger] tokens[j]) is Space ==> text[span_start(tokens[j])] == ' ',
        no_tabs(tokens),
        0 <= st.line_start <= span_start(tokens[ti]),
        st.has_break ==> st.line_start <= st.break_char <= span_start(tokens[ti]),
        words_fit(tokens, least_room(avail, indent, px_size)),
        fit_inv(tokens, text, avail, indent, px_size, ti, st),
        span_start(tokens[ti]) > text_st1(text, tokens[ti], kb, st).line_start,
        text_st1(text, tokens[ti], kb, st).has_break,
        match tokens[ti] {
            BreakToken::Text { width, .. } => text_st1(text, tokens[ti], kb, st).line_width + width
                > effective_width(avail, indent, st.first, px_size),
            _ => false,
        },
    ensures
        fit_inv(tokens, text, avail, indent, px_size, ti + 1, fill_step(tokens, text, avail, indent, tab_w, kb, ti, st, px_size)),
{
    let t = tokens[ti];
    let s = span_start(t);
    let ls = st.line_start;
    lemma_fit_text_st1(tokens, text, avail, indent, kb, ti, st, px_size);
    let st1 = text_st1(text, t, kb, st);
    let bc = st1.break_char;
    let ns = skip_spaces(text, bc);
    assert(!is_separator(text[s]));
    lemma_skip_spaces_before(text, bc, s);
    lemma_skip_spaces_all(text, bc);
    assert forall|j: int| 0 <= j < ti + 1 && span_start(tokens[j]) >= ns implies (#[trigger] tokens[j]) is Text by {
        if j < ti && span_start(tokens[j]) == bc && tokens[j] is Space {
            assert(text[bc] == ' ');
            lemma_skip_spaces_all(text, bc + 1);
        }
        assert(!(tokens[j] is Tab));
    }
    let nst = fill_step(tokens, text, avail, indent, tab_w, kb, ti, st, px_size);
    if let BreakToken::Text { start_idx, end_idx, width, max_font_size } = t {
        let l = line(ls, bc, st1.fs_at_break, false);
        assert(nst.lines == st.lines.push(l));
        assert(nst.line_start == ns);
        assert(nst.line_width == spec_recalc_width(tokens, ti, ns) + width);
        assert(spec_recalc_width(tokens, ti + 1, ns) == spec_recalc_width(tokens, ti, ns) + width);
        assert(!nst.first && !nst.has_break && nst.line_max_fs == max_font_size);
    }
    assert forall|j: int|
        0 <= j < ti + 1 && (#[trigger] tokens[j]) is Text && span_start(tokens[j]) >= ns implies spec_recalc_width(
        tokens,
        j + 1,
        ns,
    ) <= effective_width(avail, indent, false, px_size) by {
        assert forall|i: int| 0 <= i < j + 1 && span_start(tokens[i]) >= ns implies (#[trigger] tokens[i]) is Text by {
            assert(0 <= i < ti + 1);
        }
        assert(spec_recalc_width(tokens, j + 1, ns) <= least_room(avail, indent, px_size));
    }
    let k0 = st.lines.len() as int;
    assert forall|k: int| 0 <= k < nst.lines.len() implies line_text_fits(
        tokens,
        #[trigger] nst.lines[k],
        effective_width(avail, indent, k == 0, px_size),
    ) && nst.lines[k].max_font_size <= max_font_span(
        tokens,
        ti + 1,
        nst.lines[k].start_idx as int,
        nst.lines[k].end_idx as int,
    ) by {
        if k < k0 {
            assert(nst.lines[k] == st.lines[k]);
            lemma_span_monotone(tokens, ti, ti + 1, st.lines[k].start_idx as int, st.lines[k].end_idx as int);
        } else {
            let l = nst.lines[k];
            assert(l.start_idx == ls && l.end_idx == bc);
            assert forall|j: int|
                0 <= j < tokens.len() && (#[trigger] tokens[j]) is Text && l.start_idx <= span_start(tokens[j])
                    && span_end(tokens[j]) <= l.end_idx implies spec_recalc_width(
                tokens,
                j + 1,
                l.start_idx as int,
            ) <= effective_width(avail, indent, k == 0, px_size) by {
                assert(j < ti);
            }
        }
    }
}

proof fn lemma_fit_facts(tokens: Seq<BreakToken>, text: Seq<char>, ti: int)
    requires
        tokens_tile(tokens, text, 0),
        no_tabs(tokens),
        0 <= ti < tokens.len(),
    ensures
        forall|j: int| 0 <= j < ti ==> span_start(#[trigger] tokens[j]) < span_start(tokens[ti]),
        forall|j: int| 0 <= j < tokens.len() && span_end(#[trigger] tokens[j]) <= span_start(tokens[ti]) ==> j < ti,
        forall|j: int| 0 <= j < tokens.len() && (#[trigger] tokens[j]) is Space ==> text[span_start(tokens[j])] == ' ',
        forall|j: int|
            0 <= j < tokens.len() && j != ti && span_end(#[trigger] tokens[j]) <= span_end(tokens[ti])
                ==> j < ti,
        !(tokens[ti] is Tab),
{
    assert forall|j: int| 0 <= j < ti implies span_start(#[trigger] tokens[j]) < span_start(tokens[ti]) by {
        lemma_tile_before(tokens, text, j, ti);
    }
    assert forall|j: int| 0 <= j < tokens.len() && span_end(#[trigger] tokens[j]) <= span_start(tokens[ti]) implies j < ti by {
        lemma_tile_before(tokens, text, j, ti);
    }
    assert forall|j: int| 0 <= j < tokens.len() && (#[trigger] tokens[j]) is Space implies text[span_start(tokens[j])] == ' ' by {
        assert(kind_matches(tokens[j], text));
    }
    assert forall|j: int|
        0 <= j < tokens.len() && j != ti && span_end(#[trigger] tokens[j]) <= span_end(tokens[ti])
            implies j < ti by {
        assert(span_start(tokens[ti]) < span_end(tokens[ti]));
        if j > ti {
            lemma_tile_order(tokens, text, ti, j);
            assert(span_start(tokens[j]) < span_end(tokens[j]));
        }
    }
}

proof fn lemma_fit_fold(
    tokens: Seq<BreakToken>,
    text: Seq<char>,
    avail: int,
    indent: int,
    tab_w: int,
    kb: u8,
    k: int,
    px_size: u32,
)
    requires
        tokens_tile(tokens, text, 0),
        text.len() <= u32::MAX,
        0 <= k <= tokens.len(),
        no_tabs(tokens),
        words_fit(tokens, least_room(avail, indent, px_size)),
    ensures
        fill_inv(tokens, text, k, fill_fold(tokens, text, avail, indent, tab_w, kb, k, px_size)),
        fit_inv(tokens, text, avail, indent, px_size, k, fill_fold(tokens, text, avail, indent, tab_w, kb, k, px_size)),
    decreases k,
{
    lemma_fill_fold_inv(tokens, text, avail, indent, tab_w, kb, k, px_size);
    if k > 0 {
        let ti = k - 1;
        lemma_fit_fold(tokens, text, avail, indent, tab_w, kb, ti, px_size);
        let st = fill_fold(tokens, text, avail, indent, tab_w, kb, ti, px_size);
        lemma_step_facts(tokens, text, ti, st);
        lemma_fit_facts(tokens, text, ti);
        if tokens[ti] is Text {
            lemma_fit_text(tokens, text, avail, indent, tab_w, kb, ti, st, px_size);
        } else if tokens[ti] is Space {
            lemma_fit_space(tokens, text, avail, indent, tab_w, kb, ti, st, px_size);
        } else {
            lemma_fit_feed(tokens, text, avail, indent, tab_w, kb, ti, st, px_size);
        }
    }
}

proof fn lemma_lines_fit(
    tokens: Seq<BreakToken>,
    text: Seq<char>,
    avail: int,
    indent: int,
    tab_w: u32,
    kb: u8,
    px_size: u32,
)
    requires
        tokens_tile(tokens, text, 0),
        text.len() <= u32::MAX,
        no_tabs(tokens),
        words_fit(tokens, least_room(avail, indent, px_size)),
    ensures
        ({
            let lines = spec_fill_lines(tokens, text, avail, indent, tab_w, kb, px_size);
            forall|k: int|
                0 <= k < lines.len() ==> line_text_fits(
                    tokens,
                    #[trigger] lines[k],
                    effective_width(avail, indent, k == 0, px_size),
                ) && lines[k].max_font_size <= max_font_span(
                    tokens,
                    tokens.len() as int,
                    lines[k].start_idx as int,
                    lines[k].end_idx as int,
                )
        }),
{
    let lines = spec_fill_lines(tokens, text, avail, indent, tab_w, kb, px_size);
    if tokens.len() > 0 {
        let tw = tab_width_or_default(tab_w, px_size);
        let n = tokens.len() as int;
        lemma_fit_fold(tokens, text, avail, indent, tw, kb, n, px_size);
        let st = fill_fold(tokens, text, avail, indent, tw, kb, n, px_size);
        assert(span_end(tokens.last()) == text.len());
        let l = line(st.line_start, text.len() as int, st.line_max_fs, false);
        assert(lines == st.lines.push(l));
        assert forall|k: int| 0 <= k < lines.len() implies line_text_fits(
            tokens,
            #[trigger] lines[k],
            effective_width(avail, indent, k == 0, px_size),
        ) && lines[k].max_font_size <= max_font_span(
            tokens,
            n,
            lines[k].start_idx as int,
            lines[k].end_idx as int,
        ) by {
            if k < st.lines.len() {
                assert(lines[k] == st.lines[k]);
            } else {
                assert(lines[k] == l);
            }
        }
    } else {
        assert(lines == seq![line(0, 0, 0, false)]);
        assert forall|k: int| 0 <= k < lines.len() implies line_text_fits(
            tokens,
            #[trigger] lines[k],
            effective_width(avail, indent, k == 0, px_size),
        ) by {}
    }
}

/// Greedy filling never puts a word past the room of its line: in a paragraph of words,
/// spaces and line feeds (no tabs) where every stretch of words without a space or line feed
/// between them fits in a line, the widths of a line's
/// words and spaces, from its start up to and including any of its words, add up to at most
/// the line's room (the first line's room, less a positive indent, for the first line). After
/// a line is closed at a break, the words already weighed for the next line count on it.
pub proof fn law_lines_fit_their_room(
    tokens: Seq<BreakToken>,
    text: Seq<char>,
    avail: int,
    indent: int,
    tab_w: u32,
    kb: u8,
    px_size: u32,
)
    requires
        tokens_tile(tokens, text, 0),
        text.len() <= u32::MAX,
        no_tabs(tokens),
        words_fit(tokens, least_room(avail, indent, px_size)),
    ensures
        ({
            let lines = spec_fill_lines(tokens, text, avail, indent, tab_w, kb, px_size);
            forall|k: int|
                0 <= k < lines.len() ==> line_text_fits(
                    tokens,
                    #[trigger] lines[k],
                    effective_width(avail, indent, k == 0, px_size),
                )
        }),
{
    lemma_lines_fit(tokens, text, avail, indent, tab_w, kb, px_size);
}

/// A line's font size comes from its own tokens: in a paragraph of words, spaces and line
/// feeds (no tabs) where every stretch of words without a space or line feed between them fits
/// in a line, no line is given a font size larger
/// than the largest among the tokens that start within it (the space it breaks at included),
/// so a word moved to the next line does not size the line it left.
pub proof fn law_line_font_from_its_tokens(
    tokens: Seq<BreakToken>,
    text: Seq<char>,
    avail: int,
    indent: int,
    tab_w: u32,
    kb: u8,
    px_size: u32,
)
    requires
        tokens_tile(tokens, text, 0),
        text.len() <= u32::MAX,
        no_tabs(tokens),
        words_fit(tokens, least_room(avail, indent, px_size)),
    ensures
        ({
            let lines = spec_fill_lines(tokens, text, avail, indent, tab_w, kb, px_size);
            forall|k: int|
                0 <= k < lines.len() ==> (#[trigger] lines[k]).max_font_size <= max_font_span(
                    tokens,
                    tokens.len() as int,
                    lines[k].start_idx as int,
                    lines[k].end_idx as int,
                )
        }),
{
    lemma_lines_fit(tokens, text, avail, indent, tab_w, kb, px_size);
}

} // verus!
