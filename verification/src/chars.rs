//! Character classes used by the line breaker. The Unicode ranges of each class (Hangul,
//! Latin, Hanja, kana, symbols, full-width forms), the language slot a character falls in and
//! which characters take the language of the text around them are this crate's own reading
//! of those classes, stated by the spec functions below.
use vstd::prelude::*;

verus! {

/// Language slot of HWP character shapes: Korean.
pub const LANG_KOREAN: usize = 0;
/// Language slot: English (Latin letters and digits).
pub const LANG_ENGLISH: usize = 1;
/// Language slot: Hanja (CJK ideographs).
pub const LANG_HANJA: usize = 2;
/// Language slot: Japanese kana.
pub const LANG_JAPANESE: usize = 3;
/// Language slot: other scripts.
pub const LANG_OTHER: usize = 4;
/// Language slot: symbols and punctuation.
pub const LANG_SYMBOL: usize = 5;
/// Number of language slots of a character shape.
pub const LANG_COUNT: usize = 7;

/// `cp` lies in the closed range `[lo, hi]`.
pub open spec fn in_range(cp: u32, lo: u32, hi: u32) -> bool {
    lo <= cp <= hi
}

/// Characters that may not begin a line (closing brackets, punctuation, units).
pub open spec fn spec_line_start_forbidden(c: char) -> bool {
    c == ')' || c == ']' || c == '}' || c == ',' || c == '.' || c == '!' || c == '?' || c == ';'
        || c == ':' || c == '\'' || c == '"' || c == '\u{3001}' || c == '\u{3002}' || c
        == '\u{2026}' || c == '\u{00B7}' || c == '\u{2015}' || c == '\u{30FC}' || c == '\u{300B}'
        || c == '\u{300D}' || c == '\u{300F}' || c == '\u{3011}' || c == '\u{FF09}' || c
        == '\u{FF5D}' || c == '\u{3015}' || c == '\u{3009}' || c == '\u{FF1E}' || c == '\u{226B}'
        || c == '\u{FF3D}' || c == '\u{FE5E}' || c == '\u{301E}' || c == '\u{2019}' || c
        == '\u{201D}' || c == '\u{FF0C}' || c == '\u{FF0E}' || c == '\u{FF01}' || c == '\u{FF1F}'
        || c == '\u{FF1B}' || c == '\u{FF1A}' || c == '%' || c == '\u{2030}' || c == '\u{2103}'
        || c == '\u{00B0}' || c == '\u{FF05}'
}

/// Characters that may not end a line (opening brackets, currency signs).
pub open spec fn spec_line_end_forbidden(c: char) -> bool {
    c == '(' || c == '[' || c == '{' || c == '\'' || c == '"' || c == '\u{300A}' || c
        == '\u{300C}' || c == '\u{300E}' || c == '\u{3010}' || c == '\u{FF08}' || c == '\u{FF5B}'
        || c == '\u{3014}' || c == '\u{3008}' || c == '\u{FF1C}' || c == '\u{226A}' || c
        == '\u{FF3B}' || c == '\u{301D}' || c == '\u{2018}' || c == '\u{201C}' || c == '$' || c
        == '\u{20A9}' || c == '\u{00A3}' || c == '\u{20AC}' || c == '\u{00A5}' || c == '\u{FF04}'
        || c == '\u{FFE5}'
}

/// Hangul syllables and jamo, old-Hangul extensions included.
pub open spec fn spec_is_hangul(c: char) -> bool {
    let cp = c as u32;
    in_range(cp, 0xAC00, 0xD7A3) || in_range(cp, 0x1100, 0x11FF) || in_range(cp, 0x3130, 0x318F)
        || in_range(cp, 0xA960, 0xA97F) || in_range(cp, 0xD7B0, 0xD7FF)
}

/// Latin letters and digits.
pub open spec fn spec_is_latin_letter_or_digit(c: char) -> bool {
    let cp = c as u32;
    in_range(cp, 0x30, 0x39) || in_range(cp, 0x41, 0x5A) || in_range(cp, 0x61, 0x7A) || (
    in_range(cp, 0xC0, 0x24F) && cp != 0xD7 && cp != 0xF7) || in_range(cp, 0x1E00, 0x1EFF)
}

/// CJK ideographs (unified, extensions, compatibility, radicals).
pub open spec fn spec_is_ideograph(c: char) -> bool {
    let cp = c as u32;
    in_range(cp, 0x2E80, 0x2FDF) || in_range(cp, 0x3400, 0x4DBF) || in_range(cp, 0x4E00, 0x9FFF)
        || in_range(cp, 0xF900, 0xFAFF) || in_range(cp, 0x20000, 0x3134F)
}

/// Hiragana, katakana and half-width katakana.
pub open spec fn spec_is_kana(c: char) -> bool {
    let cp = c as u32;
    in_range(cp, 0x3040, 0x30FF) || in_range(cp, 0x31F0, 0x31FF) || in_range(cp, 0xFF66, 0xFF9F)
}

/// ASCII punctuation and symbols.
pub open spec fn spec_is_ascii_punct(c: char) -> bool {
    let cp = c as u32;
    in_range(cp, 0x21, 0x2F) || in_range(cp, 0x3A, 0x40) || in_range(cp, 0x5B, 0x60) || in_range(
        cp,
        0x7B,
        0x7E,
    )
}

/// Punctuation and symbol blocks outside ASCII.
pub open spec fn spec_is_symbol_block(c: char) -> bool {
    let cp = c as u32;
    in_range(cp, 0xA1, 0xBF) || cp == 0xD7 || cp == 0xF7 || in_range(cp, 0x2000, 0x2BFF)
        || in_range(cp, 0x3000, 0x303F) || in_range(cp, 0xFF01, 0xFF65) || in_range(
        cp,
        0xFFE0,
        0xFFEF,
    )
}

/// The language slot whose character shape renders `c`.
pub open spec fn spec_lang_category(c: char) -> usize {
    if spec_is_hangul(c) {
        LANG_KOREAN
    } else if spec_is_latin_letter_or_digit(c) {
        LANG_ENGLISH
    } else if spec_is_ideograph(c) {
        LANG_HANJA
    } else if spec_is_kana(c) {
        LANG_JAPANESE
    } else if spec_is_ascii_punct(c) || spec_is_symbol_block(c) {
        LANG_SYMBOL
    } else {
        LANG_OTHER
    }
}

/// Characters that take the language of their neighbours: white space and ASCII punctuation.
pub open spec fn spec_lang_neutral(c: char) -> bool {
    c == ' ' || c == '\t' || c == '\n' || c == '\u{00A0}' || c == '\u{3000}' || spec_is_ascii_punct(
        c,
    )
}

/// Latin letters and digits, by language slot.
pub open spec fn spec_is_latin(c: char) -> bool {
    spec_lang_category(c) == LANG_ENGLISH
}

/// Hanja or Japanese, by language slot: characters that break one by one.
pub open spec fn spec_is_cjk_ideograph(c: char) -> bool {
    spec_lang_category(c) == LANG_HANJA || spec_lang_category(c) == LANG_JAPANESE
}

/// Full-width characters: Hangul, Hanja, kana, CJK punctuation and full-width forms.
pub open spec fn spec_is_cjk_char(c: char) -> bool {
    let cp = c as u32;
    spec_is_hangul(c) || spec_is_cjk_ideograph(c) || in_range(cp, 0x3000, 0x303F) || in_range(
        cp,
        0xFF00,
        0xFFEF,
    )
}

/// Whether `ch` may not begin a line.
pub fn is_line_start_forbidden(ch: char) -> (r: bool)
    ensures
        r == spec_line_start_forbidden(ch),
{
    match ch {
        ')' | ']' | '}' | ',' | '.' | '!' | '?' | ';' | ':' | '\'' | '"' | '\u{3001}' | '\u{3002}'
        | '\u{2026}' | '\u{00B7}' | '\u{2015}' | '\u{30FC}' | '\u{300B}' | '\u{300D}' | '\u{300F}'
        | '\u{3011}' | '\u{FF09}' | '\u{FF5D}' | '\u{3015}' | '\u{3009}' | '\u{FF1E}' | '\u{226B}'
        | '\u{FF3D}' | '\u{FE5E}' | '\u{301E}' | '\u{2019}' | '\u{201D}' | '\u{FF0C}' | '\u{FF0E}'
        | '\u{FF01}' | '\u{FF1F}' | '\u{FF1B}' | '\u{FF1A}' | '%' | '\u{2030}' | '\u{2103}'
        | '\u{00B0}' | '\u{FF05}' => true,
        _ => false,
    }
}

/// Whether `ch` may not end a line.
pub fn is_line_end_forbidden(ch: char) -> (r: bool)
    ensures
        r == spec_line_end_forbidden(ch),
{
    match ch {
        '(' | '[' | '{' | '\'' | '"' | '\u{300A}' | '\u{300C}' | '\u{300E}' | '\u{3010}'
        | '\u{FF08}' | '\u{FF5B}' | '\u{3014}' | '\u{3008}' | '\u{FF1C}' | '\u{226A}' | '\u{FF3B}'
        | '\u{301D}' | '\u{2018}' | '\u{201C}' | '$' | '\u{20A9}' | '\u{00A3}' | '\u{20AC}'
        | '\u{00A5}' | '\u{FF04}' | '\u{FFE5}' => true,
        _ => false,
    }
}

fn within(cp: u32, lo: u32, hi: u32) -> (r: bool)
    ensures
        r == in_range(cp, lo, hi),
{
    lo <= cp && cp <= hi
}

/// Whether `ch` is a Hangul syllable or jamo.
pub fn is_hangul(ch: char) -> (r: bool)
    ensures
        r == spec_is_hangul(ch),
{
    let cp = ch as u32;
    within(cp, 0xAC00, 0xD7A3) || within(cp, 0x1100, 0x11FF) || within(cp, 0x3130, 0x318F)
        || within(cp, 0xA960, 0xA97F) || within(cp, 0xD7B0, 0xD7FF)
}

/// The language slot of `ch` (0 Korean, 1 English, 2 Hanja, 3 Japanese, 4 other, 5 symbol),
/// by this crate's reading of the scripts' ranges (`spec_lang_category`).
pub fn detect_lang_category(ch: char) -> (r: usize)
    ensures
        r == spec_lang_category(ch),
        r < LANG_COUNT,
{
    let cp = ch as u32;
    if is_hangul(ch) {
        LANG_KOREAN
    } else if within(cp, 0x30, 0x39) || within(cp, 0x41, 0x5A) || within(cp, 0x61, 0x7A) || (
    within(cp, 0xC0, 0x24F) && cp != 0xD7 && cp != 0xF7) || within(cp, 0x1E00, 0x1EFF) {
        LANG_ENGLISH
    } else if within(cp, 0x2E80, 0x2FDF) || within(cp, 0x3400, 0x4DBF) || within(
        cp,
        0x4E00,
        0x9FFF,
    ) || within(cp, 0xF900, 0xFAFF) || within(cp, 0x20000, 0x3134F) {
        LANG_HANJA
    } else if within(cp, 0x3040, 0x30FF) || within(cp, 0x31F0, 0x31FF) || within(
        cp,
        0xFF66,
        0xFF9F,
    ) {
        LANG_JAPANESE
    } else if is_ascii_punct(ch) || within(cp, 0xA1, 0xBF) || cp == 0xD7 || cp == 0xF7 || within(
        cp,
        0x2000,
        0x2BFF,
    ) || within(cp, 0x3000, 0x303F) || within(cp, 0xFF01, 0xFF65) || within(cp, 0xFFE0, 0xFFEF) {
        LANG_SYMBOL
    } else {
        LANG_OTHER
    }
}

fn is_ascii_punct(ch: char) -> (r: bool)
    ensures
        r == spec_is_ascii_punct(ch),
{
    let cp = ch as u32;
    within(cp, 0x21, 0x2F) || within(cp, 0x3A, 0x40) || within(cp, 0x5B, 0x60) || within(
        cp,
        0x7B,
        0x7E,
    )
}

/// Whether `ch` takes the language of the text around it: by this crate's reading, spaces,
/// tabs, line feeds, no-break and ideographic spaces, and ASCII punctuation.
pub fn is_lang_neutral(ch: char) -> (r: bool)
    ensures
        r == spec_lang_neutral(ch),
{
    ch == ' ' || ch == '\t' || ch == '\n' || ch == '\u{00A0}' || ch == '\u{3000}' || is_ascii_punct(
        ch,
    )
}

/// Whether `ch` is a Latin letter or digit (English language slot).
pub fn is_latin(ch: char) -> (r: bool)
    ensures
        r == spec_is_latin(ch),
{
    let lang = detect_lang_category(ch);
    lang == LANG_ENGLISH
}

/// Whether `ch` is Hanja or Japanese, which break character by character.
pub fn is_cjk_ideograph(ch: char) -> (r: bool)
    ensures
        r == spec_is_cjk_ideograph(ch),
{
    let lang = detect_lang_category(ch);
    lang == LANG_HANJA || lang == LANG_JAPANESE
}

/// Whether `ch` is a full-width character, by this crate's reading: Hangul, Hanja, kana, CJK
/// punctuation and full-width forms.
pub fn is_cjk_char(ch: char) -> (r: bool)
    ensures
        r == spec_is_cjk_char(ch),
{
    let cp = ch as u32;
    is_hangul(ch) || is_cjk_ideograph(ch) || within(cp, 0x3000, 0x303F) || within(
        cp,
        0xFF00,
        0xFFEF,
    )
}

} // verus!
