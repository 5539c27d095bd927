use hwp_linebreak::fill::{char_level_break, fill_lines, recalc_width_from, LineBreakResult};
use hwp_linebreak::metrics::{CharMetrics, GlyphMetric};
use hwp_linebreak::tokenize::{tokenize_paragraph, BreakToken};

/// HWPUNIT in one pixel at 96 dpi.
const PX: u32 = 75;

fn uniform(n: usize, width: u32, font_size: u32) -> Vec<CharMetrics> {
    vec![CharMetrics { by_lang: [GlyphMetric { font_size, width }; 7] }; n]
}

fn chars(s: &str) -> Vec<char> {
    s.chars().collect()
}

fn spans(lines: &[LineBreakResult]) -> Vec<(usize, usize)> {
    lines.iter().map(|l| (l.start_idx, l.end_idx)).collect()
}

fn lines_of(s: &str, width: u32, avail: i32, indent: i32, eb: u8, kb: u8) -> Vec<LineBreakResult> {
    let t = chars(s);
    let m = uniform(t.len(), width, 900);
    let tokens = tokenize_paragraph(&t, &m, eb, kb, PX);
    fill_lines(&tokens, &t, avail, indent, 0, kb, PX)
}

#[test]
fn no_tokens_give_one_empty_line() {
    let lines = fill_lines(&[], &[], 1000, 0, 0, 0, PX);
    assert_eq!(lines, vec![LineBreakResult { start_idx: 0, end_idx: 0, max_font_size: 0, has_line_break: false }]);
}

#[test]
fn breaks_at_the_last_space_that_fits() {
    let lines = lines_of("aaa bbb ccc", 100, 750, 0, 0, 0);
    assert_eq!(spans(&lines), vec![(0, 7), (8, 11)]);
    assert!(lines.iter().all(|l| l.max_font_size == 900 && !l.has_line_break));
}

#[test]
fn everything_fits_on_one_line() {
    let lines = lines_of("aaa bbb ccc", 100, 5000, 0, 0, 0);
    assert_eq!(spans(&lines), vec![(0, 11)]);
}

#[test]
fn forced_line_break_ends_a_line() {
    let lines = lines_of("ab\ncd", 100, 5000, 0, 0, 0);
    assert_eq!(spans(&lines), vec![(0, 3), (3, 5)]);
    assert!(lines[0].has_line_break);
    assert!(!lines[1].has_line_break);
}

#[test]
fn positive_indent_narrows_the_first_line() {
    // Room 750, first line 750 - 300 = 450: "aaa" fits, "aaa bbb" does not.
    let lines = lines_of("aaa bbb ccc", 100, 750, 300, 0, 0);
    assert_eq!(spans(&lines), vec![(0, 3), (4, 11)]);
}

#[test]
fn hanging_indent_narrows_later_lines() {
    // First line 750, later lines 750 - 400 = 350.
    let lines = lines_of("aaa bbb ccc ddd", 100, 750, -400, 0, 0);
    assert_eq!(spans(&lines), vec![(0, 7), (8, 11), (12, 15)]);
}

#[test]
fn hanja_breaks_between_characters() {
    let lines = lines_of("漢漢漢漢漢", 100, 250, 0, 0, 0);
    assert_eq!(spans(&lines), vec![(0, 2), (2, 4), (4, 5)]);
}

#[test]
fn hangul_word_mode_keeps_words_whole() {
    let lines = lines_of("가나다 라마바", 100, 450, 0, 0, 0);
    assert_eq!(spans(&lines), vec![(0, 3), (4, 7)]);
    // By character, Hangul breaks inside a word.
    let lines = lines_of("가나다라마바", 100, 450, 0, 0, 1);
    assert_eq!(spans(&lines), vec![(0, 4), (4, 6)]);
}

#[test]
fn over_long_word_breaks_by_character() {
    // Ten Latin letters, each counted as half the 12 px font (450) when forced apart.
    let lines = lines_of("aaaaaaaaaa", 100, 900, 0, 0, 0);
    assert_eq!(spans(&lines), vec![(0, 2), (2, 4), (4, 6), (6, 8), (8, 10)]);
}

#[test]
fn tab_advances_to_the_next_stop() {
    // Tab stops every 3600: "a" (100) + tab reaches 3600, then "b" (100).
    let t = chars("a\tb");
    let m = uniform(t.len(), 100, 900);
    let tokens = tokenize_paragraph(&t, &m, 0, 0, PX);
    let lines = fill_lines(&tokens, &t, 3650, 0, 0, 0, PX);
    assert_eq!(spans(&lines), vec![(0, 1), (1, 3)]);
    let wide = fill_lines(&tokens, &t, 4000, 0, 0, 0, PX);
    assert_eq!(spans(&wide), vec![(0, 3)]);
}

#[test]
fn width_after_a_break_point() {
    let tokens = vec![
        BreakToken::Text { start_idx: 0, end_idx: 3, width: 300, max_font_size: 900 },
        BreakToken::Space { idx: 3, width: 100, max_font_size: 900 },
        BreakToken::Text { start_idx: 4, end_idx: 6, width: 200, max_font_size: 900 },
        BreakToken::Tab { idx: 6, max_font_size: 900 },
        BreakToken::Text { start_idx: 7, end_idx: 8, width: 50, max_font_size: 900 },
    ];
    assert_eq!(recalc_width_from(&tokens, 5, 4), 250);
    assert_eq!(recalc_width_from(&tokens, 5, 0), 650);
    assert_eq!(recalc_width_from(&tokens, 2, 4), 0);
}

#[test]
fn character_level_fallback() {
    let t = chars("abcd漢");
    let mut start = 0usize;
    let (parts, width, fs) = char_level_break(&t, 0, 5, &mut start, 0, 1000, 1200, 2000, true, PX);
    // Latin letters count 500 (half of 1000), the Hanja 1000; the first line has room 1200,
    // the next 2000.
    assert_eq!(
        parts,
        vec![LineBreakResult { start_idx: 0, end_idx: 2, max_font_size: 1000, has_line_break: false }]
    );
    assert_eq!(start, 2);
    assert_eq!(width, 2000);
    assert_eq!(fs, 1000);
}

#[test]
fn lines_follow_the_text() {
    let s = "가나다 라마 abc-def 漢字漢字\n끝 word\tx";
    let t = chars(s);
    for avail in [300, 500, 900, 2000] {
        let lines = lines_of(s, 100, avail, 0, 1, 0);
        assert_eq!(lines[0].start_idx, 0);
        assert_eq!(lines.last().unwrap().end_idx, t.len());
        for w in lines.windows(2) {
            assert!(w[0].start_idx <= w[0].end_idx);
            assert!(w[0].end_idx <= w[1].start_idx);
        }
        for l in &lines {
            if l.has_line_break {
                assert_eq!(t[l.end_idx - 1], '\n');
            }
        }
        assert!(lines.iter().any(|l| l.has_line_break && l.end_idx == 20));
    }
}

#[test]
fn only_spaces_at_breaks_are_left_out() {
    let s = "aaa   bbb ccc\nd";
    let t = chars(s);
    let lines = lines_of(s, 100, 750, 0, 0, 0);
    for (j, c) in t.iter().enumerate() {
        if *c != ' ' {
            assert!(lines.iter().any(|l| l.start_idx <= j && j < l.end_idx), "{} lost", j);
        }
    }
}

#[test]
fn forced_breaks_are_the_line_feeds() {
    let s = "ab\n\ncd ef gh\nij";
    let t = chars(s);
    let lines = lines_of(s, 100, 450, 0, 0, 0);
    let feeds = t.iter().filter(|c| **c == '\n').count();
    assert_eq!(lines.iter().filter(|l| l.has_line_break).count(), feeds);
    assert!(lines.len() >= feeds + 1);
    for l in &lines {
        let ends_after_feed = l.start_idx < l.end_idx && t[l.end_idx - 1] == '\n';
        assert_eq!(l.has_line_break, ends_after_feed);
    }
}

#[test]
fn fitting_line_takes_the_largest_font() {
    let t = chars("ab cd");
    let mut m = uniform(t.len(), 100, 900);
    m[3].by_lang = [GlyphMetric { font_size: 1500, width: 100 }; 7];
    let tokens = tokenize_paragraph(&t, &m, 0, 0, PX);
    let lines = fill_lines(&tokens, &t, 5000, 0, 0, 0, PX);
    assert_eq!(lines, vec![LineBreakResult { start_idx: 0, end_idx: 5, max_font_size: 1500, has_line_break: false }]);
}

#[test]
fn character_breaks_follow_one_another() {
    let t = chars("abcdefgh");
    let mut start = 0usize;
    let (parts, _, _) = char_level_break(&t, 0, 8, &mut start, 0, 900, 900, 900, true, PX);
    // Each Latin letter counts 450: two per line of 900.
    assert_eq!(spans(&parts), vec![(0, 2), (2, 4), (4, 6)]);
    assert_eq!(start, 6);
    assert!(parts.iter().all(|p| !p.has_line_break && p.max_font_size == 900));
}

#[test]
fn tokens_past_the_text_are_accepted() {
    let t = chars("ab");
    let tokens = vec![
        BreakToken::Text { start_idx: 0, end_idx: 2, width: 200, max_font_size: 900 },
        BreakToken::Space { idx: 5, width: 100, max_font_size: 900 },
    ];
    let lines = fill_lines(&tokens, &t, 5000, 0, 0, 0, PX);
    assert_eq!(spans(&lines), vec![(0, 6)]);
}
