//! Splitting a paragraph into break tokens: words that may not be split,
//! spaces and tabs where a line may end, and forced line breaks.
use vstd::prelude::*;
use crate::chars::{
    detect_lang_category, is_cjk_ideograph, is_hangul, is_lang_neutral, is_latin,
    is_line_start_forbidden, spec_is_cjk_ideograph, spec_is_hangul, spec_is_latin, spec_lang_category, spec_lang_neutral,
    spec_line_start_forbidden, LANG_COUNT, LANG_ENGLISH, LANG_KOREAN,
};
use crate::metrics::{default_font_size, font_at, font_of, px_size_ok, width_at, width_of, CharMetrics};

verus! {

/// A unit of the line breaker. Lengths are HWPUNIT.
#[derive(Clone, Copy, Debug, PartialEq, Eq, Structural)]
pub enum BreakToken {
    /// Characters `start_idx..end_idx` that stay on one line.
    Text { start_idx: usize, end_idx: usize, width: u64, max_font_size: u32 },
    /// A space: a break opportunity, absorbed at the end of a line.
    Space { idx: usize, width: u64, max_font_size: u32 },
    /// A tab: a break opportunity whose width depends on the position in the line.
    Tab { idx: usize, max_font_size: u32 },
    /// A forced line break.
    LineBreak { idx: usize },
}

/// First character position covered by a token.
pub open spec fn span_start(t: BreakToken) -> int {
    match t {
        BreakToken::Text { start_idx, .. } => start_idx as int,
        BreakToken::Space { idx, .. } => idx as int,
        BreakToken::Tab { idx, .. } => idx as int,
        BreakToken::LineBreak { idx } => idx as int,
    }
}

/// One past the last character position covered by a token.
pub open spec fn span_end(t: BreakToken) -> int {
    match t {
        BreakToken::Text { end_idx, .. } => end_idx as int,
        BreakToken::Space { idx, .. } => idx + 1,
        BreakToken::Tab { idx, .. } => idx + 1,
        BreakToken::LineBreak { idx } => idx + 1,
    }
}

/// A character that separates words: space, tab or line feed.
pub open spec fn is_separator(c: char) -> bool {
    c == ' ' || c == '\n' || c == '\t'
}

/// The token's kind agrees with the characters it covers.
pub open spec fn kind_matches(t: BreakToken, text: Seq<char>) -> bool {
    match t {
        BreakToken::Text { start_idx, end_idx, .. } => forall|j: int|
            start_idx <= j < end_idx ==> !is_separator(#[trigger] text[j]),
        BreakToken::Space { idx, .. } => text[idx as int] == ' ',
        BreakToken::Tab { idx, .. } => text[idx as int] == '\t',
        BreakToken::LineBreak { idx } => text[idx as int] == '\n',
    }
}

/// `ts` covers `text[from..]` with non-empty, adjacent spans, in order, each of the right kind.
pub open spec fn tokens_tile(ts: Seq<BreakToken>, text: Seq<char>, from: int) -> bool {
    &&& (ts.len() == 0 <==> from == text.len())
    &&& ts.len() > 0 ==> span_start(ts[0]) == from && span_end(ts.last()) == text.len()
    &&& forall|k: int|
        0 <= k < ts.len() ==> span_start(#[trigger] ts[k]) < span_end(ts[k]) <= text.len()
            && kind_matches(ts[k], text)
    &&& forall|k: int| 0 <= k < ts.len() - 1 ==> span_end(#[trigger] ts[k]) == span_start(ts[k + 1])
}

/// The language after reading `c`: neutral characters keep the current one.
pub open spec fn next_lang(c: char, lang: usize) -> usize {
    if spec_lang_neutral(c) {
        lang
    } else {
        spec_lang_category(c)
    }
}

pub open spec fn max_u32(a: u32, b: u32) -> u32 {
    if b > a {
        b
    } else {
        a
    }
}

/// A character that ends a Hangul word.
pub open spec fn ends_hangul_word(c: char) -> bool {
    is_separator(c) || (!spec_is_hangul(c) && spec_is_latin(c)) || spec_is_cjk_ideograph(c)
}

/// A character that a word takes along because it may not begin a line.
pub open spec fn absorbed_after_word(c: char) -> bool {
    spec_line_start_forbidden(c) && c != '\n' && c != '\t'
}

/// A character that ends a Latin word.
pub open spec fn ends_latin_word(c: char) -> bool {
    is_separator(c) || (!spec_is_latin(c) && !spec_lang_neutral(c))
}

/// Reading a Hangul word from `i`: its end, the language reached and the largest font size.
pub open spec fn scan_hangul(text: Seq<char>, m: Seq<CharMetrics>, i: int, lang: usize, mx: u32, px_size: u32) -> (
    int,
    usize,
    u32,
)
    decreases text.len() - i,
{
    if i < 0 || i >= text.len() || ends_hangul_word(text[i]) {
        (i, lang, mx)
    } else {
        let l = next_lang(text[i], lang);
        scan_hangul(text, m, i + 1, l, max_u32(mx, font_at(m, i, l, px_size)), px_size)
    }
}

/// Reading the characters that follow a word and may not begin a line.
pub open spec fn scan_absorbed(text: Seq<char>, m: Seq<CharMetrics>, i: int, lang: usize, mx: u32, px_size: u32) -> (
    int,
    usize,
    u32,
)
    decreases text.len() - i,
{
    if i < 0 || i >= text.len() || !absorbed_after_word(text[i]) {
        (i, lang, mx)
    } else {
        let l = next_lang(text[i], lang);
        scan_absorbed(text, m, i + 1, l, max_u32(mx, font_at(m, i, l, px_size)), px_size)
    }
}

/// Reading a Latin word that starts at `start`; in hyphen mode (`eb == 1`) a hyphen after
/// the first character ends the word and stays in it, measured as English.
pub open spec fn scan_latin(
    text: Seq<char>,
    m: Seq<CharMetrics>,
    eb: u8,
    start: int,
    i: int,
    lang: usize,
    mx: u32,
    px_size: u32,
) -> (int, usize, u32)
    decreases text.len() - i,
{
    if i < 0 || i >= text.len() || ends_latin_word(text[i]) {
        (i, lang, mx)
    } else if eb == 1 && text[i] == '-' && i > start {
        (i + 1, lang, max_u32(mx, font_at(m, i, LANG_ENGLISH, px_size)))
    } else {
        let l = next_lang(text[i], lang);
        scan_latin(text, m, eb, start, i + 1, l, max_u32(mx, font_at(m, i, l, px_size)), px_size)
    }
}

/// Width of `text[i..end]`, each character measured in the language reached at it.
pub open spec fn spec_measure(text: Seq<char>, m: Seq<CharMetrics>, i: int, end: int, lang: usize) -> int
    decreases end - i,
{
    if i >= end {
        0
    } else {
        let l = next_lang(text[i], lang);
        width_at(m, i, l) + spec_measure(text, m, i + 1, end, l)
    }
}

/// A one-character text token measured in language `l`.
pub open spec fn single_token(m: Seq<CharMetrics>, i: int, l: usize, px_size: u32) -> BreakToken {
    BreakToken::Text {
        start_idx: i as usize,
        end_idx: (i + 1) as usize,
        width: width_at(m, i, l) as u64,
        max_font_size: font_at(m, i, l, px_size),
    }
}

/// A word token over `text[i..end]` whose characters were read to language `l`.
pub open spec fn word_token(
    text: Seq<char>,
    m: Seq<CharMetrics>,
    i: int,
    end: int,
    l: usize,
    mx: u32,
) -> BreakToken {
    BreakToken::Text {
        start_idx: i as usize,
        end_idx: end as usize,
        width: spec_measure(text, m, i, end, l) as u64,
        max_font_size: mx,
    }
}

/// The token that starts at `i` when the current language is `lang`, the position after it
/// and the language reached. `eb`/`kb` are the English and Korean break units
/// (0 word, 1 hyphen or character, 2 character for English).
pub open spec fn spec_next_token(
    text: Seq<char>,
    m: Seq<CharMetrics>,
    eb: u8,
    kb: u8,
    i: int,
    lang: usize,
    px_size: u32,
) -> (BreakToken, int, usize) {
    let ch = text[i];
    if ch == '\n' {
        (BreakToken::LineBreak { idx: i as usize }, i + 1, lang)
    } else if ch == '\t' {
        (BreakToken::Tab { idx: i as usize, max_font_size: font_at(m, i, lang, px_size) }, i + 1, lang)
    } else if ch == ' ' {
        (
            BreakToken::Space {
                idx: i as usize,
                width: width_at(m, i, lang) as u64,
                max_font_size: font_at(m, i, lang, px_size),
            },
            i + 1,
            lang,
        )
    } else if spec_is_hangul(ch) {
        if kb == 0 {
            let (e1, l1, f1) = scan_hangul(text, m, i, lang, 0, px_size);
            let (e2, l2, f2) = scan_absorbed(text, m, e1, l1, f1, px_size);
            (word_token(text, m, i, e2, l2, f2), e2, l2)
        } else {
            let l = spec_lang_category(ch);
            (single_token(m, i, l, px_size), i + 1, l)
        }
    } else if spec_is_latin(ch) {
        if eb == 0 || eb == 1 {
            let (e, l, f) = scan_latin(text, m, eb, i, i, lang, 0, px_size);
            (word_token(text, m, i, e, l, f), e, l)
        } else {
            (single_token(m, i, LANG_ENGLISH, px_size), i + 1, LANG_ENGLISH)
        }
    } else if spec_is_cjk_ideograph(ch) {
        let l = spec_lang_category(ch);
        (single_token(m, i, l, px_size), i + 1, l)
    } else {
        let l = next_lang(ch, lang);
        (single_token(m, i, l, px_size), i + 1, l)
    }
}

pub proof fn lemma_scan_hangul(text: Seq<char>, m: Seq<CharMetrics>, i: int, lang: usize, mx: u32, px_size: u32)
    requires
        0 <= i <= text.len(),
        lang < LANG_COUNT,
    ensures
        i <= scan_hangul(text, m, i, lang, mx, px_size).0 <= text.len(),
        scan_hangul(text, m, i, lang, mx, px_size).1 < LANG_COUNT,
        i < text.len() && !ends_hangul_word(text[i]) ==> i < scan_hangul(text, m, i, lang, mx, px_size).0,
        forall|j: int| i <= j < scan_hangul(text, m, i, lang, mx, px_size).0 ==> !is_separator(#[trigger] text[j]),
        forall|j: int| i <= j < scan_hangul(text, m, i, lang, mx, px_size).0 ==> !ends_hangul_word(#[trigger] text[j]),
    decreases text.len() - i,
{
    if i < text.len() && !ends_hangul_word(text[i]) {
        lemma_scan_hangul(text, m, i + 1, next_lang(text[i], lang), max_u32(mx, font_at(m, i, next_lang(text[i], lang), px_size)), px_size);
    }
}

pub proof fn lemma_scan_absorbed(text: Seq<char>, m: Seq<CharMetrics>, i: int, lang: usize, mx: u32, px_size: u32)
    requires
        0 <= i <= text.len(),
        lang < LANG_COUNT,
    ensures
        i <= scan_absorbed(text, m, i, lang, mx, px_size).0 <= text.len(),
        scan_absorbed(text, m, i, lang, mx, px_size).1 < LANG_COUNT,
        forall|j: int| i <= j < scan_absorbed(text, m, i, lang, mx, px_size).0 ==> !is_separator(#[trigger] text[j]),
        forall|j: int| i <= j < scan_absorbed(text, m, i, lang, mx, px_size).0 ==> absorbed_after_word(#[trigger] text[j]),
    decreases text.len() - i,
{
    if i < text.len() && absorbed_after_word(text[i]) {
        lemma_scan_absorbed(text, m, i + 1, next_lang(text[i], lang), max_u32(mx, font_at(m, i, next_lang(text[i], lang), px_size)), px_size);
    }
}

pub proof fn lemma_scan_latin(text: Seq<char>, m: Seq<CharMetrics>, eb: u8, start: int, i: int, lang: usize, mx: u32, px_size: u32)
    requires
        0 <= start <= i <= text.len(),
        lang < LANG_COUNT,
    ensures
        i <= scan_latin(text, m, eb, start, i, lang, mx, px_size).0 <= text.len(),
        scan_latin(text, m, eb, start, i, lang, mx, px_size).1 < LANG_COUNT,
        i < text.len() && !ends_latin_word(text[i]) ==> i < scan_latin(text, m, eb, start, i, lang, mx, px_size).0,
        forall|j: int| i <= j < scan_latin(text, m, eb, start, i, lang, mx, px_size).0 ==> !is_separator(#[trigger] text[j]),
        forall|j: int| i <= j < scan_latin(text, m, eb, start, i, lang, mx, px_size).0 ==> !ends_latin_word(#[trigger] text[j]),
    decreases text.len() - i,
{
    if i < text.len() && !ends_latin_word(text[i]) && !(eb == 1 && text[i] == '-' && i > start) {
        lemma_scan_latin(text, m, eb, start, i + 1, next_lang(text[i], lang), max_u32(mx, font_at(m, i, next_lang(text[i], lang), px_size)), px_size);
    }
}

/// The token at `i` ends after `i`, within the text, and leaves a valid language.
pub proof fn lemma_next_token_advances(text: Seq<char>, m: Seq<CharMetrics>, eb: u8, kb: u8, i: int, lang: usize, px_size: u32)
    requires
        0 <= i < text.len(),
        lang < LANG_COUNT,
    ensures
        i < spec_next_token(text, m, eb, kb, i, lang, px_size).1 <= text.len(),
        spec_next_token(text, m, eb, kb, i, lang, px_size).2 < LANG_COUNT,
{
    let ch = text[i];
    if ch == '\n' || ch == '\t' || ch == ' ' {
    } else if spec_is_hangul(ch) {
        if kb == 0 {
            lemma_scan_hangul(text, m, i, lang, 0, px_size);
            let (e1, l1, f1) = scan_hangul(text, m, i, lang, 0, px_size);
            lemma_scan_absorbed(text, m, e1, l1, f1, px_size);
        }
    } else if spec_is_latin(ch) {
        if eb == 0 || eb == 1 {
            lemma_scan_latin(text, m, eb, i, i, lang, 0, px_size);
        }
    }
}

/// The token at `i` lies in `text[i..]`, covers `i`, matches its characters, and leaves a
/// valid language.
pub proof fn lemma_next_token(text: Seq<char>, m: Seq<CharMetrics>, eb: u8, kb: u8, i: int, lang: usize, px_size: u32)
    requires
        0 <= i < text.len() <= usize::MAX,
        lang < LANG_COUNT,
    ensures
        ({
            let (t, ni, nl) = spec_next_token(text, m, eb, kb, i, lang, px_size);
            &&& span_start(t) == i
            &&& span_end(t) == ni
            &&& i < ni <= text.len()
            &&& nl < LANG_COUNT
            &&& kind_matches(t, text)
        }),
{
    let ch = text[i];
    if ch == '\n' || ch == '\t' || ch == ' ' {
    } else if spec_is_hangul(ch) {
        if kb == 0 {
            lemma_scan_hangul(text, m, i, lang, 0, px_size);
            let (e1, l1, f1) = scan_hangul(text, m, i, lang, 0, px_size);
            lemma_scan_absorbed(text, m, e1, l1, f1, px_size);
        }
    } else if spec_is_latin(ch) {
        if eb == 0 || eb == 1 {
            lemma_scan_latin(text, m, eb, i, i, lang, 0, px_size);
        }
    }
}

/// Tokens of `text[i..]` when the current language is `lang`.
pub open spec fn spec_tokens_from(
    text: Seq<char>,
    m: Seq<CharMetrics>,
    eb: u8,
    kb: u8,
    i: int,
    lang: usize,
    px_size: u32,
) -> Seq<BreakToken>
    decreases text.len() - i,
{
    if i < 0 || i >= text.len() || lang >= LANG_COUNT {
        seq![]
    } else {
        let (t, ni, nl) = spec_next_token(text, m, eb, kb, i, lang, px_size);
        proof {
            lemma_next_token_advances(text, m, eb, kb, i, lang, px_size);
        }
        seq![t] + spec_tokens_from(text, m, eb, kb, ni, nl, px_size)
    }
}

/// The break tokens of a paragraph, read from its first character in language slot 0.
pub open spec fn spec_tokenize(text: Seq<char>, m: Seq<CharMetrics>, eb: u8, kb: u8, px_size: u32) -> Seq<BreakToken> {
    spec_tokens_from(text, m, eb, kb, 0, LANG_KOREAN, px_size)
}

pub proof fn lemma_tokens_tile(text: Seq<char>, m: Seq<CharMetrics>, eb: u8, kb: u8, i: int, lang: usize, px_size: u32)
    requires
        0 <= i <= text.len() <= usize::MAX,
        lang < LANG_COUNT,
    ensures
        tokens_tile(spec_tokens_from(text, m, eb, kb, i, lang, px_size), text, i),
    decreases text.len() - i,
{
    if i < text.len() {
        lemma_next_token(text, m, eb, kb, i, lang, px_size);
        let (t, ni, nl) = spec_next_token(text, m, eb, kb, i, lang, px_size);
        lemma_tokens_tile(text, m, eb, kb, ni, nl, px_size);
        let rest = spec_tokens_from(text, m, eb, kb, ni, nl, px_size);
        let ts = spec_tokens_from(text, m, eb, kb, i, lang, px_size);
        assert(ts == seq![t] + rest);
        assert forall|k: int| 0 <= k < ts.len() implies span_start(#[trigger] ts[k]) < span_end(
            ts[k],
        ) <= text.len() && kind_matches(ts[k], text) by {
            if k > 0 {
                assert(ts[k] == rest[k - 1]);
            }
        }
        assert forall|k: int| 0 <= k < ts.len() - 1 implies span_end(#[trigger] ts[k])
            == span_start(ts[k + 1]) by {
            if k > 0 {
                assert(ts[k] == rest[k - 1]);
            }
            assert(ts[k + 1] == rest[k]);
        }
        if rest.len() > 0 {
            assert(ts.last() == rest.last());
        }
    }
}

/// The tokens of a paragraph cover its characters in order, without gaps or overlaps; each
/// space, tab and line feed is a token of its own kind, and no text token holds one.
pub proof fn law_tokens_tile_text(text: Seq<char>, m: Seq<CharMetrics>, eb: u8, kb: u8, px_size: u32)
    requires
        text.len() <= usize::MAX,
    ensures
        tokens_tile(spec_tokenize(text, m, eb, kb, px_size), text, 0),
{
    lemma_tokens_tile(text, m, eb, kb, 0, LANG_KOREAN, px_size);
}


/// Only words are longer than one character: Hangul words when Korean breaks by word
/// (`kb == 0`), Latin words when English breaks by word or hyphen (`eb` 0 or 1). Hanja, kana
/// and every other character make tokens of their own.
pub open spec fn only_words_span(ts: Seq<BreakToken>, text: Seq<char>, eb: u8, kb: u8) -> bool {
    forall|k: int|
        0 <= k < ts.len() ==> match #[trigger] ts[k] {
            BreakToken::Text { start_idx, end_idx, .. } => end_idx - start_idx > 1 ==> ((kb == 0
                && spec_is_hangul(text[start_idx as int])) || ((eb == 0 || eb == 1)
                && spec_is_latin(text[start_idx as int]))),
            _ => true,
        }
}

proof fn lemma_words_span(text: Seq<char>, m: Seq<CharMetrics>, eb: u8, kb: u8, i: int, lang: usize, px_size: u32)
    requires
        0 <= i <= text.len() <= usize::MAX,
        lang < LANG_COUNT,
    ensures
        only_words_span(spec_tokens_from(text, m, eb, kb, i, lang, px_size), text, eb, kb),
    decreases text.len() - i,
{
    if i < text.len() {
        lemma_next_token(text, m, eb, kb, i, lang, px_size);
        let (t, ni, nl) = spec_next_token(text, m, eb, kb, i, lang, px_size);
        lemma_words_span(text, m, eb, kb, ni, nl, px_size);
        let rest = spec_tokens_from(text, m, eb, kb, ni, nl, px_size);
        let ts = spec_tokens_from(text, m, eb, kb, i, lang, px_size);
        assert(ts == seq![t] + rest);
        assert forall|k: int| 0 <= k < ts.len() implies match #[trigger] ts[k] {
            BreakToken::Text { start_idx, end_idx, .. } => end_idx - start_idx > 1 ==> ((kb == 0
                && spec_is_hangul(text[start_idx as int])) || ((eb == 0 || eb == 1)
                && spec_is_latin(text[start_idx as int]))),
            _ => true,
        } by {
            if k > 0 {
                assert(ts[k] == rest[k - 1]);
            }
        }
    }
}

/// Hanja, kana and other characters break one by one, and so do Hangul and Latin letters
/// when their break unit is the character: only Hangul and Latin words span several
/// characters.
pub proof fn law_break_units(text: Seq<char>, m: Seq<CharMetrics>, eb: u8, kb: u8, px_size: u32)
    requires
        text.len() <= usize::MAX,
    ensures
        only_words_span(spec_tokenize(text, m, eb, kb, px_size), text, eb, kb),
{
    lemma_words_span(text, m, eb, kb, 0, LANG_KOREAN, px_size);
}

/// In Hangul word mode a Hangul word takes along the characters after it that may not begin
/// a line: the character after such a word never is one.
pub open spec fn closing_marks_absorbed(ts: Seq<BreakToken>, text: Seq<char>, kb: u8) -> bool {
    forall|k: int|
        0 <= k < ts.len() ==> match #[trigger] ts[k] {
            BreakToken::Text { start_idx, end_idx, .. } => (kb == 0 && spec_is_hangul(
                text[start_idx as int],
            ) && end_idx < text.len()) ==> !spec_line_start_forbidden(text[end_idx as int]),
            _ => true,
        }
}

proof fn lemma_scan_absorbed_stops(text: Seq<char>, m: Seq<CharMetrics>, i: int, lang: usize, mx: u32, px_size: u32)
    requires
        0 <= i <= text.len(),
    ensures
        scan_absorbed(text, m, i, lang, mx, px_size).0 < text.len() ==> !absorbed_after_word(
            text[scan_absorbed(text, m, i, lang, mx, px_size).0],
        ),
    decreases text.len() - i,
{
    if i < text.len() && absorbed_after_word(text[i]) {
        lemma_scan_absorbed_stops(text, m, i + 1, next_lang(text[i], lang), max_u32(mx, font_at(m, i, next_lang(text[i], lang), px_size)), px_size);
    }
}

proof fn lemma_closing_marks(text: Seq<char>, m: Seq<CharMetrics>, eb: u8, kb: u8, i: int, lang: usize, px_size: u32)
    requires
        0 <= i <= text.len() <= usize::MAX,
        lang < LANG_COUNT,
    ensures
        closing_marks_absorbed(spec_tokens_from(text, m, eb, kb, i, lang, px_size), text, kb),
    decreases text.len() - i,
{
    if i < text.len() {
        lemma_next_token(text, m, eb, kb, i, lang, px_size);
        let (t, ni, nl) = spec_next_token(text, m, eb, kb, i, lang, px_size);
        lemma_closing_marks(text, m, eb, kb, ni, nl, px_size);
        if kb == 0 && spec_is_hangul(text[i]) && text[i] != '\n' && text[i] != '\t' && text[i] != ' ' {
            lemma_scan_hangul(text, m, i, lang, 0, px_size);
            let (e1, l1, f1) = scan_hangul(text, m, i, lang, 0, px_size);
            lemma_scan_absorbed_stops(text, m, e1, l1, f1, px_size);
        }
        let rest = spec_tokens_from(text, m, eb, kb, ni, nl, px_size);
        let ts = spec_tokens_from(text, m, eb, kb, i, lang, px_size);
        assert(ts == seq![t] + rest);
        assert forall|k: int| 0 <= k < ts.len() implies match #[trigger] ts[k] {
            BreakToken::Text { start_idx, end_idx, .. } => (kb == 0 && spec_is_hangul(
                text[start_idx as int],
            ) && end_idx < text.len()) ==> !spec_line_start_forbidden(text[end_idx as int]),
            _ => true,
        } by {
            if k > 0 {
                assert(ts[k] == rest[k - 1]);
            }
        }
    }
}

/// A character that may not begin a line never follows a Hangul word when Korean breaks by
/// word: the word takes it along.
pub proof fn law_closing_marks_stay_with_word(text: Seq<char>, m: Seq<CharMetrics>, eb: u8, kb: u8, px_size: u32)
    requires
        text.len() <= usize::MAX,
    ensures
        closing_marks_absorbed(spec_tokenize(text, m, eb, kb, px_size), text, kb),
{
    lemma_closing_marks(text, m, eb, kb, 0, LANG_KOREAN, px_size);
}

/// In hyphen mode a Latin word holds no hyphen but as its last character: a word breaks right
/// after a hyphen.
pub open spec fn hyphens_end_words(ts: Seq<BreakToken>, text: Seq<char>, eb: u8) -> bool {
    forall|k: int|
        0 <= k < ts.len() ==> match #[trigger] ts[k] {
            BreakToken::Text { start_idx, end_idx, .. } => (eb == 1 && spec_is_latin(
                text[start_idx as int],
            )) ==> forall|j: int| start_idx <= j < end_idx - 1 ==> text[j] != '-',
            _ => true,
        }
}

proof fn lemma_scan_latin_hyphen(text: Seq<char>, m: Seq<CharMetrics>, start: int, i: int, lang: usize, mx: u32, px_size: u32)
    requires
        0 <= start <= i <= text.len(),
    ensures
        forall|j: int|
            i <= j < scan_latin(text, m, 1, start, i, lang, mx, px_size).0 - 1 && j > start ==> text[j] != '-',
    decreases text.len() - i,
{
    if i < text.len() && !ends_latin_word(text[i]) && !(text[i] == '-' && i > start) {
        lemma_scan_latin_hyphen(text, m, start, i + 1, next_lang(text[i], lang), max_u32(mx, font_at(m, i, next_lang(text[i], lang), px_size)), px_size);
    }
}

proof fn lemma_hyphens(text: Seq<char>, m: Seq<CharMetrics>, eb: u8, kb: u8, i: int, lang: usize, px_size: u32)
    requires
        0 <= i <= text.len() <= usize::MAX,
        lang < LANG_COUNT,
    ensures
        hyphens_end_words(spec_tokens_from(text, m, eb, kb, i, lang, px_size), text, eb),
    decreases text.len() - i,
{
    if i < text.len() {
        lemma_next_token(text, m, eb, kb, i, lang, px_size);
        let (t, ni, nl) = spec_next_token(text, m, eb, kb, i, lang, px_size);
        lemma_hyphens(text, m, eb, kb, ni, nl, px_size);
        if eb == 1 {
            lemma_scan_latin_hyphen(text, m, i, i, lang, 0, px_size);
        }
        let rest = spec_tokens_from(text, m, eb, kb, ni, nl, px_size);
        let ts = spec_tokens_from(text, m, eb, kb, i, lang, px_size);
        assert(ts == seq![t] + rest);
        assert forall|k: int| 0 <= k < ts.len() implies match #[trigger] ts[k] {
            BreakToken::Text { start_idx, end_idx, .. } => (eb == 1 && spec_is_latin(
                text[start_idx as int],
            )) ==> forall|j: int| start_idx <= j < end_idx - 1 ==> text[j] != '-',
            _ => true,
        } by {
            if k > 0 {
                assert(ts[k] == rest[k - 1]);
            }
        }
    }
}

/// In hyphen mode (`eb == 1`) Latin words break right after each hyphen.
pub proof fn law_hyphen_ends_word(text: Seq<char>, m: Seq<CharMetrics>, eb: u8, kb: u8, px_size: u32)
    requires
        text.len() <= usize::MAX,
    ensures
        hyphens_end_words(spec_tokenize(text, m, eb, kb, px_size), text, eb),
{
    lemma_hyphens(text, m, eb, kb, 0, LANG_KOREAN, px_size);
}

/// Two tokens cover the same characters with the same kind.
pub open spec fn same_span(a: BreakToken, b: BreakToken) -> bool {
    &&& span_start(a) == span_start(b)
    &&& span_end(a) == span_end(b)
    &&& match (a, b) {
        (BreakToken::Text { .. }, BreakToken::Text { .. }) => true,
        (BreakToken::Space { .. }, BreakToken::Space { .. }) => true,
        (BreakToken::Tab { .. }, BreakToken::Tab { .. }) => true,
        (BreakToken::LineBreak { .. }, BreakToken::LineBreak { .. }) => true,
        _ => false,
    }
}

proof fn lemma_scan_hangul_free(text: Seq<char>, m1: Seq<CharMetrics>, m2: Seq<CharMetrics>, i: int, lang: usize, a: u32, b: u32, px_size: u32)
    ensures
        scan_hangul(text, m1, i, lang, a, px_size).0 == scan_hangul(text, m2, i, lang, b, px_size).0,
        scan_hangul(text, m1, i, lang, a, px_size).1 == scan_hangul(text, m2, i, lang, b, px_size).1,
    decreases text.len() - i,
{
    if 0 <= i < text.len() && !ends_hangul_word(text[i]) {
        let l = next_lang(text[i], lang);
        lemma_scan_hangul_free(text, m1, m2, i + 1, l, max_u32(a, font_at(m1, i, l, px_size)), max_u32(b, font_at(m2, i, l, px_size)), px_size);
    }
}

proof fn lemma_scan_absorbed_free(text: Seq<char>, m1: Seq<CharMetrics>, m2: Seq<CharMetrics>, i: int, lang: usize, a: u32, b: u32, px_size: u32)
    ensures
        scan_absorbed(text, m1, i, lang, a, px_size).0 == scan_absorbed(text, m2, i, lang, b, px_size).0,
        scan_absorbed(text, m1, i, lang, a, px_size).1 == scan_absorbed(text, m2, i, lang, b, px_size).1,
    decreases text.len() - i,
{
    if 0 <= i < text.len() && absorbed_after_word(text[i]) {
        let l = next_lang(text[i], lang);
        lemma_scan_absorbed_free(text, m1, m2, i + 1, l, max_u32(a, font_at(m1, i, l, px_size)), max_u32(b, font_at(m2, i, l, px_size)), px_size);
    }
}

proof fn lemma_scan_latin_free(text: Seq<char>, m1: Seq<CharMetrics>, m2: Seq<CharMetrics>, eb: u8, start: int, i: int, lang: usize, a: u32, b: u32, px_size: u32)
    ensures
        scan_latin(text, m1, eb, start, i, lang, a, px_size).0 == scan_latin(text, m2, eb, start, i, lang, b, px_size).0,
        scan_latin(text, m1, eb, start, i, lang, a, px_size).1 == scan_latin(text, m2, eb, start, i, lang, b, px_size).1,
    decreases text.len() - i,
{
    if 0 <= i < text.len() && !ends_latin_word(text[i]) && !(eb == 1 && text[i] == '-' && i > start) {
        let l = next_lang(text[i], lang);
        lemma_scan_latin_free(text, m1, m2, eb, start, i + 1, l, max_u32(a, font_at(m1, i, l, px_size)), max_u32(b, font_at(m2, i, l, px_size)), px_size);
    }
}

proof fn lemma_spans_free(text: Seq<char>, m1: Seq<CharMetrics>, m2: Seq<CharMetrics>, eb: u8, kb: u8, i: int, lang: usize, px_size: u32)
    requires
        0 <= i <= text.len() <= usize::MAX,
        lang < LANG_COUNT,
    ensures
        ({
            let t1 = spec_tokens_from(text, m1, eb, kb, i, lang, px_size);
            let t2 = spec_tokens_from(text, m2, eb, kb, i, lang, px_size);
            &&& t1.len() == t2.len()
            &&& forall|k: int| 0 <= k < t1.len() ==> same_span(#[trigger] t1[k], t2[k])
        }),
    decreases text.len() - i,
{
    if i < text.len() {
        lemma_next_token(text, m1, eb, kb, i, lang, px_size);
        lemma_next_token(text, m2, eb, kb, i, lang, px_size);
        let ch = text[i];
        if spec_is_hangul(ch) && kb == 0 && !is_separator(ch) {
            lemma_scan_hangul_free(text, m1, m2, i, lang, 0, 0, px_size);
            let (e1, l1, f1) = scan_hangul(text, m1, i, lang, 0, px_size);
            let (e1b, l1b, f1b) = scan_hangul(text, m2, i, lang, 0, px_size);
            lemma_scan_absorbed_free(text, m1, m2, e1, l1, f1, f1b, px_size);
        }
        if spec_is_latin(ch) && (eb == 0 || eb == 1) {
            lemma_scan_latin_free(text, m1, m2, eb, i, i, lang, 0, 0, px_size);
        }
        let (a, na, la) = spec_next_token(text, m1, eb, kb, i, lang, px_size);
        let (b, nb, lb) = spec_next_token(text, m2, eb, kb, i, lang, px_size);
        assert(na == nb && la == lb && same_span(a, b));
        lemma_spans_free(text, m1, m2, eb, kb, na, la, px_size);
        let r1 = spec_tokens_from(text, m1, eb, kb, na, la, px_size);
        let r2 = spec_tokens_from(text, m2, eb, kb, nb, lb, px_size);
        let t1 = spec_tokens_from(text, m1, eb, kb, i, lang, px_size);
        let t2 = spec_tokens_from(text, m2, eb, kb, i, lang, px_size);
        assert(t1 == seq![a] + r1);
        assert(t2 == seq![b] + r2);
        assert forall|k: int| 0 <= k < t1.len() implies same_span(#[trigger] t1[k], t2[k]) by {
            if k > 0 {
                assert(t1[k] == r1[k - 1] && t2[k] == r2[k - 1]);
            }
        }
    }
}

/// A text, space or tab token carries a positive font size.
pub open spec fn font_size_positive(t: BreakToken) -> bool {
    match t {
        BreakToken::Text { max_font_size, .. } => max_font_size > 0,
        BreakToken::Space { max_font_size, .. } => max_font_size > 0,
        BreakToken::Tab { max_font_size, .. } => max_font_size > 0,
        BreakToken::LineBreak { .. } => true,
    }
}

proof fn lemma_scan_hangul_font(text: Seq<char>, m: Seq<CharMetrics>, i: int, lang: usize, mx: u32, px_size: u32)
    requires
        px_size_ok(px_size),
    ensures
        scan_hangul(text, m, i, lang, mx, px_size).2 >= mx,
        scan_hangul(text, m, i, lang, mx, px_size).0 > i ==> scan_hangul(text, m, i, lang, mx, px_size).2 > 0,
    decreases text.len() - i,
{
    if 0 <= i < text.len() && !ends_hangul_word(text[i]) {
        let l = next_lang(text[i], lang);
        lemma_scan_hangul_font(text, m, i + 1, l, max_u32(mx, font_at(m, i, l, px_size)), px_size);
    }
}

proof fn lemma_scan_absorbed_font(text: Seq<char>, m: Seq<CharMetrics>, i: int, lang: usize, mx: u32, px_size: u32)
    requires
        px_size_ok(px_size),
    ensures
        scan_absorbed(text, m, i, lang, mx, px_size).2 >= mx,
        scan_absorbed(text, m, i, lang, mx, px_size).0 > i ==> scan_absorbed(text, m, i, lang, mx, px_size).2 > 0,
    decreases text.len() - i,
{
    if 0 <= i < text.len() && absorbed_after_word(text[i]) {
        let l = next_lang(text[i], lang);
        lemma_scan_absorbed_font(text, m, i + 1, l, max_u32(mx, font_at(m, i, l, px_size)), px_size);
    }
}

proof fn lemma_scan_latin_font(text: Seq<char>, m: Seq<CharMetrics>, eb: u8, start: int, i: int, lang: usize, mx: u32, px_size: u32)
    requires
        px_size_ok(px_size),
    ensures
        scan_latin(text, m, eb, start, i, lang, mx, px_size).2 >= mx,
        scan_latin(text, m, eb, start, i, lang, mx, px_size).0 > i ==> scan_latin(text, m, eb, start, i, lang, mx, px_size).2 > 0,
    decreases text.len() - i,
{
    if 0 <= i < text.len() && !ends_latin_word(text[i]) && !(eb == 1 && text[i] == '-' && i > start) {
        let l = next_lang(text[i], lang);
        lemma_scan_latin_font(text, m, eb, start, i + 1, l, max_u32(mx, font_at(m, i, l, px_size)), px_size);
    }
}

proof fn lemma_fonts_positive(text: Seq<char>, m: Seq<CharMetrics>, eb: u8, kb: u8, i: int, lang: usize, px_size: u32)
    requires
        px_size_ok(px_size),
        0 <= i <= text.len() <= usize::MAX,
        lang < LANG_COUNT,
    ensures
        forall|k: int|
            0 <= k < spec_tokens_from(text, m, eb, kb, i, lang, px_size).len() ==> font_size_positive(
                #[trigger] spec_tokens_from(text, m, eb, kb, i, lang, px_size)[k],
            ),
    decreases text.len() - i,
{
    if i < text.len() {
        lemma_next_token(text, m, eb, kb, i, lang, px_size);
        let (t, ni, nl) = spec_next_token(text, m, eb, kb, i, lang, px_size);
        lemma_fonts_positive(text, m, eb, kb, ni, nl, px_size);
        let ch = text[i];
        if kb == 0 && spec_is_hangul(ch) {
            lemma_scan_hangul_font(text, m, i, lang, 0, px_size);
            let (e1, l1, f1) = scan_hangul(text, m, i, lang, 0, px_size);
            lemma_scan_absorbed_font(text, m, e1, l1, f1, px_size);
        }
        if eb == 0 || eb == 1 {
            lemma_scan_latin_font(text, m, eb, i, i, lang, 0, px_size);
        }
        assert(font_size_positive(t));
        let rest = spec_tokens_from(text, m, eb, kb, ni, nl, px_size);
        let ts = spec_tokens_from(text, m, eb, kb, i, lang, px_size);
        assert(ts == seq![t] + rest);
        assert forall|k: int| 0 <= k < ts.len() implies font_size_positive(#[trigger] ts[k]) by {
            if k > 0 {
                assert(ts[k] == rest[k - 1]);
            }
        }
    }
}

/// Every text, space and tab token has a positive font size: a character whose shape gives
/// no size is measured at the default size.
pub proof fn law_token_font_sizes_positive(text: Seq<char>, m: Seq<CharMetrics>, eb: u8, kb: u8, px_size: u32)
    requires
        px_size_ok(px_size),
        text.len() <= usize::MAX,
    ensures
        forall|k: int|
            0 <= k < spec_tokenize(text, m, eb, kb, px_size).len() ==> font_size_positive(
                #[trigger] spec_tokenize(text, m, eb, kb, px_size)[k],
            ),
{
    lemma_fonts_positive(text, m, eb, kb, 0, LANG_KOREAN, px_size);
}

/// A character that is a token of its own wherever it stands: a Hangul letter when Korean
/// breaks by character (`kb != 0`); Hanja or kana that may begin a line; a Latin letter or
/// digit when English breaks by character (`eb` neither 0 nor 1).
pub open spec fn breaks_alone(c: char, eb: u8, kb: u8) -> bool {
    ||| kb != 0 && spec_is_hangul(c)
    ||| spec_is_cjk_ideograph(c) && !spec_line_start_forbidden(c)
    ||| eb != 0 && eb != 1 && spec_is_latin(c)
}

/// `t` is the one-character text token of position `j`.
pub open spec fn alone_at(t: BreakToken, j: int) -> bool {
    &&& t is Text
    &&& span_start(t) == j
    &&& span_end(t) == j + 1
}

proof fn lemma_alone(text: Seq<char>, m: Seq<CharMetrics>, eb: u8, kb: u8, i: int, lang: usize, j: int, px_size: u32)
    requires
        0 <= i <= j < text.len() <= usize::MAX,
        lang < LANG_COUNT,
        breaks_alone(text[j], eb, kb),
    ensures
        exists|k: int|
            0 <= k < spec_tokens_from(text, m, eb, kb, i, lang, px_size).len() && #[trigger] alone_at(
                spec_tokens_from(text, m, eb, kb, i, lang, px_size)[k],
                j,
            ),
    decreases text.len() - i,
{
    lemma_next_token(text, m, eb, kb, i, lang, px_size);
    let (t, ni, nl) = spec_next_token(text, m, eb, kb, i, lang, px_size);
    let rest = spec_tokens_from(text, m, eb, kb, ni, nl, px_size);
    let ts = spec_tokens_from(text, m, eb, kb, i, lang, px_size);
    assert(ts == seq![t] + rest);
    if j < ni {
        let ch = text[i];
        if kb == 0 && spec_is_hangul(ch) {
            lemma_scan_hangul(text, m, i, lang, 0, px_size);
            let (e1, l1, f1) = scan_hangul(text, m, i, lang, 0, px_size);
            lemma_scan_absorbed(text, m, e1, l1, f1, px_size);
            if j < e1 {
                assert(!ends_hangul_word(text[j]));
            } else {
                assert(absorbed_after_word(text[j]));
            }
        }
        if (eb == 0 || eb == 1) && spec_is_latin(ch) {
            lemma_scan_latin(text, m, eb, i, i, lang, 0, px_size);
            assert(!ends_latin_word(text[j]));
        }
        assert(alone_at(t, j));
        assert(ts[0] == t);
    } else {
        lemma_alone(text, m, eb, kb, ni, nl, j, px_size);
        let k = choose|k: int| 0 <= k < rest.len() && #[trigger] alone_at(rest[k], j);
        assert(ts[k + 1] == rest[k]);
    }
}

/// Hangul letters when Korean breaks by character, Hanja and kana that may begin a line, and
/// Latin letters and digits when English breaks by character each make a one-character
/// token, wherever they stand.
pub proof fn law_single_character_tokens(text: Seq<char>, m: Seq<CharMetrics>, eb: u8, kb: u8, px_size: u32)
    requires
        text.len() <= usize::MAX,
    ensures
        forall|j: int|
            0 <= j < text.len() && #[trigger] breaks_alone(text[j], eb, kb) ==> exists|k: int|
                0 <= k < spec_tokenize(text, m, eb, kb, px_size).len() && #[trigger] alone_at(
                    spec_tokenize(text, m, eb, kb, px_size)[k],
                    j,
                ),
{
    assert forall|j: int| 0 <= j < text.len() && #[trigger] breaks_alone(text[j], eb, kb) implies exists|k: int|
        0 <= k < spec_tokenize(text, m, eb, kb, px_size).len() && #[trigger] alone_at(
            spec_tokenize(text, m, eb, kb, px_size)[k],
            j,
        ) by {
        lemma_alone(text, m, eb, kb, 0, LANG_KOREAN, j, px_size);
        let ts = spec_tokens_from(text, m, eb, kb, 0, LANG_KOREAN, px_size);
        let k = choose|k: int| 0 <= k < ts.len() && #[trigger] alone_at(ts[k], j);
        assert(alone_at(spec_tokenize(text, m, eb, kb, px_size)[k], j));
    }
}

/// A token that begins with a Hanja or kana character is that character alone, measured in
/// the character's own language slot: its width and font size there.
pub open spec fn measured_in_own_slot(t: BreakToken, text: Seq<char>, m: Seq<CharMetrics>, px_size: u32) -> bool {
    let s = span_start(t);
    let l = spec_lang_category(text[s]);
    spec_is_cjk_ideograph(text[s]) ==> t == BreakToken::Text {
        start_idx: s as usize,
        end_idx: (s + 1) as usize,
        width: m[s].by_lang@[l as int].width as u64,
        max_font_size: if m[s].by_lang@[l as int].font_size > 0 {
            m[s].by_lang@[l as int].font_size
        } else {
            default_font_size(px_size)
        },
    }
}

proof fn lemma_own_slot(text: Seq<char>, m: Seq<CharMetrics>, eb: u8, kb: u8, i: int, lang: usize, px_size: u32)
    requires
        0 <= i <= text.len() <= usize::MAX,
        lang < LANG_COUNT,
    ensures
        forall|k: int|
            0 <= k < spec_tokens_from(text, m, eb, kb, i, lang, px_size).len() ==> measured_in_own_slot(
                #[trigger] spec_tokens_from(text, m, eb, kb, i, lang, px_size)[k],
                text,
                m,
                px_size,
            ),
    decreases text.len() - i,
{
    if i < text.len() {
        lemma_next_token(text, m, eb, kb, i, lang, px_size);
        let (t, ni, nl) = spec_next_token(text, m, eb, kb, i, lang, px_size);
        lemma_own_slot(text, m, eb, kb, ni, nl, px_size);
        assert(measured_in_own_slot(t, text, m, px_size));
        let rest = spec_tokens_from(text, m, eb, kb, ni, nl, px_size);
        let ts = spec_tokens_from(text, m, eb, kb, i, lang, px_size);
        assert(ts == seq![t] + rest);
        assert forall|k: int| 0 <= k < ts.len() implies measured_in_own_slot(#[trigger] ts[k], text, m, px_size) by {
            if k > 0 {
                assert(ts[k] == rest[k - 1]);
            }
        }
    }
}

/// Hanja and kana are measured in their own language slot, whatever the language of the
/// text before them: every token that begins with such a character is that character alone,
/// with the width and font size (the default where none is given) that its metrics give under
/// the Hanja or Japanese slot.
pub proof fn law_ideographs_measured_in_own_slot(text: Seq<char>, m: Seq<CharMetrics>, eb: u8, kb: u8, px_size: u32)
    requires
        text.len() <= usize::MAX,
    ensures
        forall|k: int|
            0 <= k < spec_tokenize(text, m, eb, kb, px_size).len() ==> measured_in_own_slot(
                #[trigger] spec_tokenize(text, m, eb, kb, px_size)[k],
                text,
                m,
                px_size,
            ),
{
    lemma_own_slot(text, m, eb, kb, 0, LANG_KOREAN, px_size);
}

/// Where a paragraph breaks into tokens depends on its characters and break units only, not
/// on how wide or how large its characters are.
pub proof fn law_token_spans_ignore_metrics(text: Seq<char>, m1: Seq<CharMetrics>, m2: Seq<CharMetrics>, eb: u8, kb: u8, px_size: u32)
    requires
        text.len() <= usize::MAX,
    ensures
        ({
            let t1 = spec_tokenize(text, m1, eb, kb, px_size);
            let t2 = spec_tokenize(text, m2, eb, kb, px_size);
            &&& t1.len() == t2.len()
            &&& forall|k: int| 0 <= k < t1.len() ==> same_span(#[trigger] t1[k], t2[k])
        }),
{
    lemma_spans_free(text, m1, m2, eb, kb, 0, LANG_KOREAN, px_size);
}

pub proof fn lemma_measure_bounds(text: Seq<char>, m: Seq<CharMetrics>, i: int, end: int, lang: usize)
    requires
        i <= end,
    ensures
        0 <= spec_measure(text, m, i, end, lang) <= (end - i) * 0xffff_ffff,
    decreases end - i,
{
    if i < end {
        lemma_measure_bounds(text, m, i + 1, end, next_lang(text[i], lang));
    }
}

fn next_lang_of(c: char, lang: usize) -> (r: usize)
    requires
        lang < LANG_COUNT,
    ensures
        r == next_lang(c, lang),
        r < LANG_COUNT,
{
    if is_lang_neutral(c) {
        lang
    } else {
        detect_lang_category(c)
    }
}

fn larger(a: u32, b: u32) -> (r: u32)
    ensures
        r == max_u32(a, b),
{
    if b > a {
        b
    } else {
        a
    }
}

/// Width of the word `text[start..end]`, each character measured in the language reached
/// at it, starting from `default_lang`.
pub fn measure_token_width(
    text: &[char],
    metrics: &[CharMetrics],
    start: usize,
    end: usize,
    default_lang: usize,
) -> (w: u64)
    requires
        start <= end <= text@.len(),
        metrics@.len() == text@.len(),
        text@.len() <= u32::MAX,
        default_lang < LANG_COUNT,
    ensures
        w == spec_measure(text@, metrics@, start as int, end as int, default_lang),
{
    let mut total: u64 = 0;
    let mut lang = default_lang;
    let mut k = start;
    proof {
        lemma_measure_bounds(text@, metrics@, start as int, end as int, default_lang);
    }
    while k < end
        invariant
            start <= k <= end <= text@.len() <= u32::MAX,
            metrics@.len() == text@.len(),
            lang < LANG_COUNT,
            total + spec_measure(text@, metrics@, k as int, end as int, lang) == spec_measure(
                text@,
                metrics@,
                start as int,
                end as int,
                default_lang,
            ),
            spec_measure(text@, metrics@, start as int, end as int, default_lang) <= (end - start)
                * 0xffff_ffff,
        decreases end - k,
    {
        proof {
            lemma_measure_bounds(text@, metrics@, k + 1, end as int, next_lang(text@[k as int], lang));
        }
        let l = next_lang_of(text[k], lang);
        total = total + width_of(metrics, k, l) as u64;
        lang = l;
        k = k + 1;
    }
    total
}

fn scan_hangul_word(text: &[char], metrics: &[CharMetrics], start: usize, lang0: usize, px_size: u32) -> (r: (
    usize,
    usize,
    u32,
))
    requires
        px_size_ok(px_size),
        start <= text@.len(),
        metrics@.len() == text@.len(),
        lang0 < LANG_COUNT,
    ensures
        r.0 == scan_hangul(text@, metrics@, start as int, lang0, 0, px_size).0,
        r.1 == scan_hangul(text@, metrics@, start as int, lang0, 0, px_size).1,
        r.2 == scan_hangul(text@, metrics@, start as int, lang0, 0, px_size).2,
{
    let mut i = start;
    let mut lang = lang0;
    let mut mx: u32 = 0;
    while i < text.len()
        invariant
            px_size_ok(px_size),
            start <= i <= text@.len(),
            metrics@.len() == text@.len(),
            lang < LANG_COUNT,
            scan_hangul(text@, metrics@, i as int, lang, mx, px_size) == scan_hangul(
                text@,
                metrics@,
                start as int,
                lang0,
                0,
                px_size,
            ),
        ensures
            scan_hangul(text@, metrics@, i as int, lang, mx, px_size) == (i as int, lang, mx),
        decreases text@.len() - i,
    {
        let c = text[i];
        if c == ' ' || c == '\n' || c == '\t' {
            break;
        }
        if !is_hangul(c) && is_latin(c) {
            break;
        }
        if is_cjk_ideograph(c) {
            break;
        }
        let l = next_lang_of(c, lang);
        mx = larger(mx, font_of(metrics, i, l, px_size));
        lang = l;
        i = i + 1;
    }
    (i, lang, mx)
}

fn scan_absorbed_chars(text: &[char], metrics: &[CharMetrics], start: usize, lang0: usize, mx0: u32, px_size: u32) -> (r: (
    usize,
    usize,
    u32,
))
    requires
        px_size_ok(px_size),
        start <= text@.len(),
        metrics@.len() == text@.len(),
        lang0 < LANG_COUNT,
    ensures
        r.0 == scan_absorbed(text@, metrics@, start as int, lang0, mx0, px_size).0,
        r.1 == scan_absorbed(text@, metrics@, start as int, lang0, mx0, px_size).1,
        r.2 == scan_absorbed(text@, metrics@, start as int, lang0, mx0, px_size).2,
{
    let mut i = start;
    let mut lang = lang0;
    let mut mx: u32 = mx0;
    while i < text.len() && is_line_start_forbidden(text[i]) && text[i] != '\n' && text[i] != '\t'
        invariant
            px_size_ok(px_size),
            start <= i <= text@.len(),
            metrics@.len() == text@.len(),
            lang < LANG_COUNT,
            scan_absorbed(text@, metrics@, i as int, lang, mx, px_size) == scan_absorbed(
                text@,
                metrics@,
                start as int,
                lang0,
                mx0,
                px_size,
            ),
        decreases text@.len() - i,
    {
        let c = text[i];
        let l = next_lang_of(c, lang);
        mx = larger(mx, font_of(metrics, i, l, px_size));
        lang = l;
        i = i + 1;
    }
    (i, lang, mx)
}

fn scan_latin_word(
    text: &[char],
    metrics: &[CharMetrics],
    english_break_unit: u8,
    start: usize,
    lang0: usize,
    px_size: u32,
) -> (r: (usize, usize, u32))
    requires
        px_size_ok(px_size),
        start <= text@.len(),
        metrics@.len() == text@.len(),
        lang0 < LANG_COUNT,
    ensures
        r.0 == scan_latin(text@, metrics@, english_break_unit, start as int, start as int, lang0, 0, px_size).0,
        r.1 == scan_latin(text@, metrics@, english_break_unit, start as int, start as int, lang0, 0, px_size).1,
        r.2 == scan_latin(text@, metrics@, english_break_unit, start as int, start as int, lang0, 0, px_size).2,
{
    let mut i = start;
    let mut lang = lang0;
    let mut mx: u32 = 0;
    while i < text.len()
        invariant
            px_size_ok(px_size),
            start <= i <= text@.len(),
            metrics@.len() == text@.len(),
            lang < LANG_COUNT,
            scan_latin(text@, metrics@, english_break_unit, start as int, i as int, lang, mx, px_size)
                == scan_latin(text@, metrics@, english_break_unit, start as int, start as int, lang0, 0, px_size),
        ensures
            scan_latin(text@, metrics@, english_break_unit, start as int, i as int, lang, mx, px_size)
                == (i as int, lang, mx),
        decreases text@.len() - i,
    {
        let c = text[i];
        if c == ' ' || c == '\n' || c == '\t' {
            break;
        }
        if !is_latin(c) && !is_lang_neutral(c) {
            break;
        }
        if english_break_unit == 1 && c == '-' && i > start {
            mx = larger(mx, font_of(metrics, i, LANG_ENGLISH, px_size));
            i = i + 1;
            return (i, lang, mx);
        }
        let l = if is_lang_neutral(c) {
            lang
        } else {
            LANG_ENGLISH
        };
        mx = larger(mx, font_of(metrics, i, l, px_size));
        lang = l;
        i = i + 1;
    }
    (i, lang, mx)
}

fn single_char_token(metrics: &[CharMetrics], i: usize, l: usize, px_size: u32) -> (t: BreakToken)
    requires
        px_size_ok(px_size),
        i < metrics@.len() <= u32::MAX,
        l < LANG_COUNT,
    ensures
        t == single_token(metrics@, i as int, l, px_size),
{
    BreakToken::Text {
        start_idx: i,
        end_idx: i + 1,
        width: width_of(metrics, i, l) as u64,
        max_font_size: font_of(metrics, i, l, px_size),
    }
}

fn next_token(
    text: &[char],
    metrics: &[CharMetrics],
    english_break_unit: u8,
    korean_break_unit: u8,
    i: usize,
    lang: usize,
    px_size: u32,
) -> (r: (BreakToken, usize, usize))
    requires
        px_size_ok(px_size),
        i < text@.len() <= u32::MAX,
        metrics@.len() == text@.len(),
        lang < LANG_COUNT,
    ensures
        r.0 == spec_next_token(text@, metrics@, english_break_unit, korean_break_unit, i as int, lang, px_size).0,
        r.1 == spec_next_token(text@, metrics@, english_break_unit, korean_break_unit, i as int, lang, px_size).1,
        r.2 == spec_next_token(text@, metrics@, english_break_unit, korean_break_unit, i as int, lang, px_size).2,
{
    let ch = text[i];
    if ch == '\n' {
        return (BreakToken::LineBreak { idx: i }, i + 1, lang);
    }
    if ch == '\t' {
        return (BreakToken::Tab { idx: i, max_font_size: font_of(metrics, i, lang, px_size) }, i + 1, lang);
    }
    if ch == ' ' {
        let t = BreakToken::Space {
            idx: i,
            width: width_of(metrics, i, lang) as u64,
            max_font_size: font_of(metrics, i, lang, px_size),
        };
        return (t, i + 1, lang);
    }
    if is_hangul(ch) {
        if korean_break_unit == 0 {
            let (e1, l1, f1) = scan_hangul_word(text, metrics, i, lang, px_size);
            proof {
                lemma_scan_hangul(text@, metrics@, i as int, lang, 0, px_size);
            }
            let (e2, l2, f2) = scan_absorbed_chars(text, metrics, e1, l1, f1, px_size);
            proof {
                lemma_scan_absorbed(text@, metrics@, e1 as int, l1, f1, px_size);
                lemma_measure_bounds(text@, metrics@, i as int, e2 as int, l2);
            }
            let width = measure_token_width(text, metrics, i, e2, l2);
            return (
                BreakToken::Text { start_idx: i, end_idx: e2, width, max_font_size: f2 },
                e2,
                l2,
            );
        } else {
            let l = detect_lang_category(ch);
            return (single_char_token(metrics, i, l, px_size), i + 1, l);
        }
    }
    if is_latin(ch) {
        if english_break_unit == 0 || english_break_unit == 1 {
            let (e, l, f) = scan_latin_word(text, metrics, english_break_unit, i, lang, px_size);
            proof {
                lemma_scan_latin(text@, metrics@, english_break_unit, i as int, i as int, lang, 0, px_size);
            }
            let width = measure_token_width(text, metrics, i, e, l);
            return (BreakToken::Text { start_idx: i, end_idx: e, width, max_font_size: f }, e, l);
        } else {
            return (single_char_token(metrics, i, LANG_ENGLISH, px_size), i + 1, LANG_ENGLISH);
        }
    }
    if is_cjk_ideograph(ch) {
        let l = detect_lang_category(ch);
        return (single_char_token(metrics, i, l, px_size), i + 1, l);
    }
    let l = next_lang_of(ch, lang);
    (single_char_token(metrics, i, l, px_size), i + 1, l)
}

/// Splits a paragraph into break tokens. `metrics[i]` measures character `i` under each
/// language slot; `english_break_unit` is 0 (word), 1 (hyphen) or 2 (character), and
/// `korean_break_unit` 0 (word) or 1 (character). A character whose shape gives no font size
/// is measured at 12 px at pixel size `px_size` (HWPUNIT per pixel).
pub fn tokenize_paragraph(
    text_chars: &[char],
    metrics: &[CharMetrics],
    english_break_unit: u8,
    korean_break_unit: u8,
    px_size: u32,
) -> (tokens: Vec<BreakToken>)
    requires
        px_size_ok(px_size),
        metrics@.len() == text_chars@.len(),
        text_chars@.len() <= u32::MAX,
    ensures
        tokens@ == spec_tokenize(text_chars@, metrics@, english_break_unit, korean_break_unit, px_size),
        tokens_tile(tokens@, text_chars@, 0),
{
    let mut tokens: Vec<BreakToken> = Vec::new();
    let mut i: usize = 0;
    let mut lang: usize = LANG_KOREAN;
    while i < text_chars.len()
        invariant
            px_size_ok(px_size),
            i <= text_chars@.len() <= u32::MAX,
            metrics@.len() == text_chars@.len(),
            lang < LANG_COUNT,
            tokens@ + spec_tokens_from(
                text_chars@,
                metrics@,
                english_break_unit,
                korean_break_unit,
                i as int,
                lang,
                px_size,
            ) == spec_tokenize(text_chars@, metrics@, english_break_unit, korean_break_unit, px_size),
        decreases text_chars@.len() - i,
    {
        proof {
            lemma_next_token_advances(text_chars@, metrics@, english_break_unit, korean_break_unit, i as int, lang, px_size);
        }
        let (t, ni, nl) = next_token(text_chars, metrics, english_break_unit, korean_break_unit, i, lang, px_size);
        proof {
            let rest = spec_tokens_from(text_chars@, metrics@, english_break_unit, korean_break_unit, ni as int, nl, px_size);
            assert(spec_tokens_from(text_chars@, metrics@, english_break_unit, korean_break_unit, i as int, lang, px_size)
                == seq![t] + rest);
            assert(tokens@.push(t) + rest == tokens@ + (seq![t] + rest));
        }
        tokens.push(t);
        i = ni;
        lang = nl;
    }
    proof {
        assert(tokens@ + seq![] == tokens@);
        law_tokens_tile_text(text_chars@, metrics@, english_break_unit, korean_break_unit, px_size);
    }
    tokens
}

} // verus!
