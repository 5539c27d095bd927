use hwp_linebreak::metrics::{default_font_size_of, CharMetrics, GlyphMetric};
use hwp_linebreak::tokenize::{measure_token_width, tokenize_paragraph, BreakToken};

/// HWPUNIT in one pixel at 96 dpi.
const PX: u32 = 75;

fn uniform(n: usize, width: u32, font_size: u32) -> Vec<CharMetrics> {
    vec![CharMetrics { by_lang: [GlyphMetric { font_size, width }; 7] }; n]
}

fn chars(s: &str) -> Vec<char> {
    s.chars().collect()
}

fn text(start_idx: usize, end_idx: usize, width: u64, max_font_size: u32) -> BreakToken {
    BreakToken::Text { start_idx, end_idx, width, max_font_size }
}

#[test]
fn empty_paragraph_has_no_tokens() {
    assert!(tokenize_paragraph(&[], &[], 0, 0, PX).is_empty());
}

#[test]
fn hangul_words_and_spaces() {
    let t = chars("안녕 하세요");
    let m = uniform(t.len(), 100, 900);
    let tokens = tokenize_paragraph(&t, &m, 0, 0, PX);
    assert_eq!(
        tokens,
        vec![
            text(0, 2, 200, 900),
            BreakToken::Space { idx: 2, width: 100, max_font_size: 900 },
            text(3, 6, 300, 900),
        ]
    );
}

#[test]
fn hangul_word_takes_closing_punctuation() {
    let t = chars("가나.) 다");
    let m = uniform(t.len(), 100, 900);
    let tokens = tokenize_paragraph(&t, &m, 0, 0, PX);
    assert_eq!(tokens[0], text(0, 4, 400, 900));
    assert_eq!(tokens.len(), 3);
}

#[test]
fn hangul_by_character() {
    let t = chars("가나다");
    let m = uniform(t.len(), 100, 900);
    let tokens = tokenize_paragraph(&t, &m, 0, 1, PX);
    assert_eq!(tokens, vec![text(0, 1, 100, 900), text(1, 2, 100, 900), text(2, 3, 100, 900)]);
}

#[test]
fn latin_word_modes() {
    let t = chars("ab-cd ef");
    let m = uniform(t.len(), 50, 900);
    assert_eq!(
        tokenize_paragraph(&t, &m, 0, 0, PX),
        vec![
            text(0, 5, 250, 900),
            BreakToken::Space { idx: 5, width: 50, max_font_size: 900 },
            text(6, 8, 100, 900),
        ]
    );
    assert_eq!(
        tokenize_paragraph(&t, &m, 1, 0, PX),
        vec![
            text(0, 3, 150, 900),
            text(3, 5, 100, 900),
            BreakToken::Space { idx: 5, width: 50, max_font_size: 900 },
            text(6, 8, 100, 900),
        ]
    );
    let by_char = tokenize_paragraph(&t, &m, 2, 0, PX);
    assert_eq!(by_char.len(), 8);
    assert_eq!(by_char[0], text(0, 1, 50, 900));
    assert_eq!(by_char[2], text(2, 3, 50, 900));
}

#[test]
fn hanja_kana_breaks_per_character() {
    let t = chars("漢字かな");
    let m = uniform(t.len(), 120, 900);
    let tokens = tokenize_paragraph(&t, &m, 0, 0, PX);
    assert_eq!(tokens.len(), 4);
    for (k, tok) in tokens.iter().enumerate() {
        assert_eq!(*tok, text(k, k + 1, 120, 900));
    }
}

#[test]
fn line_feed_and_tab_tokens() {
    let t = chars("a\tb\nc");
    let m = uniform(t.len(), 10, 0);
    let tokens = tokenize_paragraph(&t, &m, 0, 0, PX);
    assert_eq!(
        tokens,
        vec![
            text(0, 1, 10, default_font_size_of(PX)),
            BreakToken::Tab { idx: 1, max_font_size: default_font_size_of(PX) },
            text(2, 3, 10, default_font_size_of(PX)),
            BreakToken::LineBreak { idx: 3 },
            text(4, 5, 10, default_font_size_of(PX)),
        ]
    );
}

#[test]
fn words_are_measured_in_their_language() {
    // Korean slot glyphs are 100 wide at 1000, English slot glyphs 40 wide at 800.
    let mut glyphs = [GlyphMetric { font_size: 500, width: 70 }; 7];
    glyphs[0] = GlyphMetric { font_size: 1000, width: 100 };
    glyphs[1] = GlyphMetric { font_size: 800, width: 40 };
    let t = chars("ab 가나");
    let m = vec![CharMetrics { by_lang: glyphs }; t.len()];
    let tokens = tokenize_paragraph(&t, &m, 0, 0, PX);
    assert_eq!(tokens[0], text(0, 2, 80, 800));
    // The space is measured in the language reached: English.
    assert_eq!(tokens[1], BreakToken::Space { idx: 2, width: 40, max_font_size: 800 });
    assert_eq!(tokens[2], text(3, 5, 200, 1000));
    assert_eq!(measure_token_width(&t, &m, 0, 5, 0), 40 + 40 + 40 + 100 + 100);
}

#[test]
fn other_characters_are_single_tokens() {
    let t = chars("ЖЖ");
    let m = uniform(t.len(), 30, 900);
    assert_eq!(tokenize_paragraph(&t, &m, 0, 0, PX), vec![text(0, 1, 30, 900), text(1, 2, 30, 900)]);
}

fn span(t: &BreakToken) -> (usize, usize) {
    match *t {
        BreakToken::Text { start_idx, end_idx, .. } => (start_idx, end_idx),
        BreakToken::Space { idx, .. } | BreakToken::Tab { idx, .. } | BreakToken::LineBreak { idx } => (idx, idx + 1),
    }
}

#[test]
fn tokens_cover_the_text_in_order() {
    let t = chars("한글 text-word,\t漢字カナ\n끝.) ok");
    let m = uniform(t.len(), 10, 900);
    for eb in 0..3u8 {
        for kb in 0..2u8 {
            let tokens = tokenize_paragraph(&t, &m, eb, kb, PX);
            let mut pos = 0;
            for tok in &tokens {
                let (s, e) = span(tok);
                assert_eq!(s, pos);
                assert!(e > s);
                pos = e;
            }
            assert_eq!(pos, t.len());
        }
    }
}

#[test]
fn token_spans_do_not_depend_on_widths() {
    let t = chars("가나 abc-de 漢\tx");
    let narrow = uniform(t.len(), 10, 100);
    let wide = uniform(t.len(), 700, 3000);
    let a = tokenize_paragraph(&t, &narrow, 1, 0, PX);
    let b = tokenize_paragraph(&t, &wide, 1, 0, PX);
    assert_eq!(a.iter().map(span).collect::<Vec<_>>(), b.iter().map(span).collect::<Vec<_>>());
}

#[test]
fn tokens_without_font_size_take_the_default() {
    let t = chars("가 a\t漢");
    let m = uniform(t.len(), 100, 0);
    let tokens = tokenize_paragraph(&t, &m, 0, 0, PX);
    for tok in &tokens {
        match tok {
            BreakToken::Text { max_font_size, .. }
            | BreakToken::Space { max_font_size, .. }
            | BreakToken::Tab { max_font_size, .. } => assert_eq!(*max_font_size, default_font_size_of(PX)),
            BreakToken::LineBreak { .. } => {}
        }
    }
}

#[test]
fn characters_that_break_alone() {
    // Hanja between Hangul words is a token of its own, as is each Hangul letter in
    // character mode and each Latin letter in character mode.
    let t = chars("가나漢다");
    let m = uniform(t.len(), 100, 900);
    let tokens = tokenize_paragraph(&t, &m, 0, 0, PX);
    assert!(tokens.contains(&text(2, 3, 100, 900)));
    let tokens = tokenize_paragraph(&t, &m, 0, 1, PX);
    assert_eq!(
        tokens,
        vec![text(0, 1, 100, 900), text(1, 2, 100, 900), text(2, 3, 100, 900), text(3, 4, 100, 900)]
    );
    let t = chars("ab가");
    let m = uniform(t.len(), 50, 900);
    assert_eq!(
        tokenize_paragraph(&t, &m, 2, 0, PX),
        vec![text(0, 1, 50, 900), text(1, 2, 50, 900), text(2, 3, 50, 900)]
    );
}

#[test]
fn default_font_size_follows_the_pixel_size() {
    // 12 px at 72 dpi is 1200 HWPUNIT.
    let t = chars("가");
    let m = uniform(1, 100, 0);
    assert_eq!(tokenize_paragraph(&t, &m, 0, 0, 100), vec![text(0, 1, 100, 1200)]);
    assert_eq!(default_font_size_of(100), 1200);
    assert_eq!(default_font_size_of(75), 900);
}
