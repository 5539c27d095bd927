use hwp_linebreak::chars::{
    detect_lang_category, is_cjk_char, is_cjk_ideograph, is_hangul, is_lang_neutral, is_latin,
    is_line_end_forbidden, is_line_start_forbidden, LANG_ENGLISH, LANG_HANJA, LANG_JAPANESE,
    LANG_KOREAN, LANG_OTHER, LANG_SYMBOL,
};
use hwp_linebreak::metrics::{char_shape_ids, find_active_char_shape, CharShapeRef};

#[test]
fn line_start_forbidden_chars() {
    for c in [')', ']', '}', ',', '.', '!', '?', ';', ':', '\'', '"', '%', '\u{3002}', '\u{FF0C}'] {
        assert!(is_line_start_forbidden(c), "{:?}", c);
    }
    for c in ['(', 'a', '가', ' ', '-', '$'] {
        assert!(!is_line_start_forbidden(c), "{:?}", c);
    }
}

#[test]
fn line_end_forbidden_chars() {
    for c in ['(', '[', '{', '\'', '"', '$', '\u{20A9}', '\u{300C}', '\u{201C}'] {
        assert!(is_line_end_forbidden(c), "{:?}", c);
    }
    for c in [')', 'a', '가', '.', ' '] {
        assert!(!is_line_end_forbidden(c), "{:?}", c);
    }
}

#[test]
fn hangul_ranges() {
    assert!(is_hangul('가'));
    assert!(is_hangul('힣'));
    assert!(is_hangul('\u{1100}'));
    assert!(is_hangul('ㄱ'));
    assert!(is_hangul('\u{318D}'));
    assert!(is_hangul('\u{A960}'));
    assert!(is_hangul('\u{D7B0}'));
    assert!(!is_hangul('A'));
    assert!(!is_hangul('漢'));
    assert!(!is_hangul('\u{D7A4}'));
}

#[test]
fn language_slots() {
    assert_eq!(detect_lang_category('가'), LANG_KOREAN);
    assert_eq!(detect_lang_category('a'), LANG_ENGLISH);
    assert_eq!(detect_lang_category('7'), LANG_ENGLISH);
    assert_eq!(detect_lang_category('é'), LANG_ENGLISH);
    assert_eq!(detect_lang_category('漢'), LANG_HANJA);
    assert_eq!(detect_lang_category('あ'), LANG_JAPANESE);
    assert_eq!(detect_lang_category('カ'), LANG_JAPANESE);
    assert_eq!(detect_lang_category('.'), LANG_SYMBOL);
    assert_eq!(detect_lang_category('\u{2026}'), LANG_SYMBOL);
    assert_eq!(detect_lang_category('Ж'), LANG_OTHER);
}

#[test]
fn latin_and_cjk_classes() {
    assert!(is_latin('Z'));
    assert!(is_latin('0'));
    assert!(!is_latin('-'));
    assert!(!is_latin('가'));
    assert!(is_cjk_ideograph('漢'));
    assert!(is_cjk_ideograph('の'));
    assert!(!is_cjk_ideograph('가'));
    assert!(!is_cjk_ideograph('a'));
    assert!(is_cjk_char('가'));
    assert!(is_cjk_char('漢'));
    assert!(is_cjk_char('\u{3001}'));
    assert!(is_cjk_char('\u{FF01}'));
    assert!(!is_cjk_char('a'));
}

#[test]
fn neutral_characters() {
    assert!(is_lang_neutral(' '));
    assert!(is_lang_neutral(','));
    assert!(is_lang_neutral('-'));
    assert!(is_lang_neutral('\u{00A0}'));
    assert!(!is_lang_neutral('a'));
    assert!(!is_lang_neutral('1'));
    assert!(!is_lang_neutral('가'));
}

#[test]
fn active_char_shape_lookup() {
    let shapes = vec![
        CharShapeRef { start_pos: 0, char_shape_id: 5 },
        CharShapeRef { start_pos: 3, char_shape_id: 7 },
        CharShapeRef { start_pos: 8, char_shape_id: 9 },
    ];
    assert_eq!(find_active_char_shape(&shapes, 0), 5);
    assert_eq!(find_active_char_shape(&shapes, 2), 5);
    assert_eq!(find_active_char_shape(&shapes, 3), 7);
    assert_eq!(find_active_char_shape(&shapes, 7), 7);
    assert_eq!(find_active_char_shape(&shapes, 100), 9);
    assert_eq!(find_active_char_shape(&[], 4), 0);
    let late = vec![CharShapeRef { start_pos: 4, char_shape_id: 2 }];
    assert_eq!(find_active_char_shape(&late, 1), 2);
}

#[test]
fn shape_ids_per_character() {
    let shapes = vec![
        CharShapeRef { start_pos: 0, char_shape_id: 1 },
        CharShapeRef { start_pos: 4, char_shape_id: 2 },
    ];
    // The second character is a surrogate pair: the third starts at UTF-16 position 3.
    let offsets = vec![0, 1, 3, 4];
    assert_eq!(char_shape_ids(5, &offsets, &shapes), vec![1, 1, 1, 2, 2]);
    assert_eq!(char_shape_ids(3, &[], &shapes), vec![1, 1, 1]);
}
