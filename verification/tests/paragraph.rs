use hwp_linebreak::metrics::{CharMetrics, GlyphMetric};
use hwp_linebreak::paragraph::{
    compute_line_spacing_hwp, font_size_to_line_height, reflow_line_segs, LineSeg, LineSpacingType,
    ParaStyle, Paragraph,
};
use hwp_linebreak::section::recalculate_section_vpos;

/// HWPUNIT in one pixel at 96 dpi.
const PX: u32 = 75;

fn uniform(n: usize, width: u32, font_size: u32) -> Vec<CharMetrics> {
    vec![CharMetrics { by_lang: [GlyphMetric { font_size, width }; 7] }; n]
}

fn para(text: &str, offsets: Vec<u32>, line_segs: Vec<LineSeg>) -> Paragraph {
    Paragraph {
        text: text.chars().collect(),
        char_offsets: offsets,
        char_shapes: vec![],
        line_segs,
        para_shape_id: 0,
    }
}

fn style(ty: LineSpacingType, value: i32) -> ParaStyle {
    ParaStyle {
        line_spacing_type: ty,
        line_spacing: value,
        indent: 0,
        english_break_unit: 0,
        korean_break_unit: 0,
        default_tab_width: 0,
    }
}

fn seg(vertical_pos: i32, line_height: i32, line_spacing: i32) -> LineSeg {
    LineSeg {
        text_start: 0,
        vertical_pos,
        line_height,
        text_height: line_height,
        baseline_distance: 0,
        line_spacing,
        column_start: 0,
        segment_width: 0,
        tag: 0,
    }
}

#[test]
fn line_spacing_by_type() {
    assert_eq!(compute_line_spacing_hwp(LineSpacingType::Percent, 160, 1000), 600);
    assert_eq!(compute_line_spacing_hwp(LineSpacingType::Percent, 100, 1000), 0);
    assert_eq!(compute_line_spacing_hwp(LineSpacingType::Percent, 80, 1000), 0);
    assert_eq!(compute_line_spacing_hwp(LineSpacingType::Percent, 150, 333), 166);
    assert_eq!(compute_line_spacing_hwp(LineSpacingType::Fixed, 1500, 1000), 500);
    assert_eq!(compute_line_spacing_hwp(LineSpacingType::Fixed, 800, 1000), 0);
    assert_eq!(compute_line_spacing_hwp(LineSpacingType::SpaceOnly, 300, 1000), 300);
    assert_eq!(compute_line_spacing_hwp(LineSpacingType::Minimum, 1200, 1000), 200);
    assert_eq!(compute_line_spacing_hwp(LineSpacingType::Minimum, 900, 1000), 0);
}

#[test]
fn line_height_follows_font_size() {
    // 10 pt, 12 pt and 25 pt in HWPUNIT.
    assert_eq!(font_size_to_line_height(1000), 1000);
    assert_eq!(font_size_to_line_height(1200), 1200);
    assert_eq!(font_size_to_line_height(2500), 2500);
    assert_eq!(font_size_to_line_height(u32::MAX), i32::MAX);
}

#[test]
fn reflow_builds_lines_from_fonts() {
    let mut p = para("aaa bbb ccc", (0..11).collect(), vec![]);
    let styles = vec![style(LineSpacingType::Percent, 160)];
    reflow_line_segs(&mut p, 750, &styles, &uniform(11, 100, 900), PX);
    let expected = |text_start: u32, vertical_pos: i32| LineSeg {
        text_start,
        vertical_pos,
        line_height: 900,
        text_height: 900,
        baseline_distance: 765,
        line_spacing: 540,
        column_start: 0,
        segment_width: 750,
        tag: 0x0006_0000,
    };
    assert_eq!(p.line_segs, vec![expected(0, 0), expected(8, 1440)]);
}

#[test]
fn reflow_keeps_dimensions_of_first_segment() {
    let orig = LineSeg {
        text_start: 0,
        vertical_pos: 5000,
        line_height: 1000,
        text_height: 800,
        baseline_distance: 850,
        line_spacing: 0,
        column_start: 0,
        segment_width: 0,
        tag: 0,
    };
    let mut p = para("aaa bbb ccc", (0..11).collect(), vec![orig]);
    let styles = vec![style(LineSpacingType::Percent, 160)];
    reflow_line_segs(&mut p, 750, &styles, &uniform(11, 100, 900), PX);
    assert_eq!(p.line_segs.len(), 2);
    assert_eq!(p.line_segs[0].vertical_pos, 5000);
    assert_eq!(p.line_segs[1].vertical_pos, 6600);
    assert_eq!(p.line_segs[1].text_start, 8);
    for s in &p.line_segs {
        assert_eq!((s.line_height, s.text_height, s.baseline_distance), (1000, 800, 850));
        assert_eq!(s.line_spacing, 600);
        assert_eq!(s.tag, 0x0006_0000);
    }
}

#[test]
fn reflow_of_empty_paragraph() {
    let mut p = para("", vec![], vec![seg(5000, 1000, 0)]);
    reflow_line_segs(&mut p, 750, &[], &[], PX);
    assert_eq!(p.line_segs.len(), 1);
    assert_eq!(p.line_segs[0].text_start, 0);
    assert_eq!(p.line_segs[0].vertical_pos, 0);
    assert_eq!(p.line_segs[0].line_height, 1000);
    assert_eq!(p.line_segs[0].line_spacing, 600);
}

#[test]
fn reflow_without_style_uses_defaults() {
    let mut p = para("aaa bbb ccc", (0..11).collect(), vec![]);
    reflow_line_segs(&mut p, 750, &[], &uniform(11, 100, 0), PX);
    assert_eq!(p.line_segs.len(), 2);
    assert_eq!(p.line_segs[0].line_height, 900);
    assert_eq!(p.line_segs[0].line_spacing, 540);
}

#[test]
fn reflow_with_fixed_spacing() {
    let mut p = para("aaa bbb ccc", (0..11).collect(), vec![]);
    let styles = vec![style(LineSpacingType::Fixed, 1500)];
    reflow_line_segs(&mut p, 750, &styles, &uniform(11, 100, 900), PX);
    assert_eq!(p.line_segs[0].line_spacing, 600);
    assert_eq!(p.line_segs[1].vertical_pos, 1500);
}

#[test]
fn line_start_past_the_recorded_offsets() {
    let mut p = para("aaa bbb ccc", vec![0, 1], vec![]);
    reflow_line_segs(&mut p, 750, &[], &uniform(11, 100, 900), PX);
    assert_eq!(p.line_segs[1].text_start, 2);
    let mut q = para("aaa bbb ccc", vec![], vec![]);
    reflow_line_segs(&mut q, 750, &[], &uniform(11, 100, 900), PX);
    assert_eq!(q.line_segs[1].text_start, 8);
}

fn section() -> Vec<Paragraph> {
    vec![
        para("", vec![], vec![seg(0, 1000, 600), seg(1600, 1000, 600)]),
        para("", vec![], vec![seg(100, 500, 100)]),
        para("", vec![], vec![]),
        para("", vec![], vec![seg(0, 800, 0), seg(800, 800, 0)]),
    ]
}

fn vpos(paras: &[Paragraph]) -> Vec<Vec<i32>> {
    paras.iter().map(|p| p.line_segs.iter().map(|s| s.vertical_pos).collect()).collect()
}

#[test]
fn section_paragraphs_follow_one_another() {
    let mut paras = section();
    recalculate_section_vpos(&mut paras, 1);
    assert_eq!(vpos(&paras), vec![vec![0, 1600], vec![3200], vec![], vec![3800, 4600]]);
    // Heights and spacings stay.
    assert_eq!(paras[1].line_segs[0].line_height, 500);
    assert_eq!(paras[3].line_segs[1].line_height, 800);
}

#[test]
fn section_from_the_first_paragraph() {
    let mut paras = section();
    recalculate_section_vpos(&mut paras, 0);
    assert_eq!(vpos(&paras), vec![vec![0, 1600], vec![3200], vec![], vec![3800, 4600]]);
}

#[test]
fn section_recalculation_is_stable() {
    let mut paras = section();
    recalculate_section_vpos(&mut paras, 1);
    let once = vpos(&paras);
    recalculate_section_vpos(&mut paras, 1);
    assert_eq!(vpos(&paras), once);
}

#[test]
fn section_start_out_of_range_or_after_empty() {
    let mut paras = section();
    recalculate_section_vpos(&mut paras, 4);
    assert_eq!(vpos(&paras), vpos(&section()));
    // The paragraph before has no lines: start again from 0.
    recalculate_section_vpos(&mut paras, 3);
    assert_eq!(vpos(&paras), vpos(&section()));
    let mut none: Vec<Paragraph> = vec![];
    recalculate_section_vpos(&mut none, 0);
    assert!(none.is_empty());
}

#[test]
fn section_from_a_middle_paragraph() {
    let mut paras = section();
    recalculate_section_vpos(&mut paras, 2);
    // Paragraph 1 ends at 100 + 500 + 100.
    assert_eq!(vpos(&paras), vec![vec![0, 1600], vec![100], vec![], vec![700, 1500]]);
}

#[test]
fn reflowing_twice_changes_nothing() {
    let orig = LineSeg {
        text_start: 0,
        vertical_pos: 700,
        line_height: 1000,
        text_height: 900,
        baseline_distance: 850,
        line_spacing: 0,
        column_start: 0,
        segment_width: 0,
        tag: 0,
    };
    let styles = vec![style(LineSpacingType::Percent, 130)];
    let m = uniform(11, 100, 900);
    let mut p = para("aaa bbb ccc", (0..11).collect(), vec![orig]);
    reflow_line_segs(&mut p, 750, &styles, &m, PX);
    let once = p.line_segs.clone();
    reflow_line_segs(&mut p, 750, &styles, &m, PX);
    assert_eq!(p.line_segs, once);
    assert!(once.windows(2).all(|w| w[0].text_start <= w[1].text_start));
}

#[test]
fn empty_paragraphs_are_passed_over() {
    let mut paras = vec![
        para("", vec![], vec![seg(0, 1000, 200)]),
        para("", vec![], vec![]),
        para("", vec![], vec![]),
        para("", vec![], vec![seg(50, 700, 0), seg(750, 700, 0)]),
    ];
    recalculate_section_vpos(&mut paras, 0);
    assert_eq!(vpos(&paras), vec![vec![0], vec![], vec![], vec![1200, 1900]]);
}

#[test]
fn reflowed_lines_carry_a_tag_and_the_style_spacing() {
    let styles = vec![style(LineSpacingType::Percent, 160)];
    let mut p = para("aaa\nbbb\nccc", (0..11).collect(), vec![]);
    reflow_line_segs(&mut p, 5000, &styles, &uniform(11, 100, 1000), PX);
    assert_eq!(p.line_segs.len(), 3);
    for s in &p.line_segs {
        assert_ne!(s.tag, 0);
        assert_eq!(s.line_spacing, compute_line_spacing_hwp(LineSpacingType::Percent, 160, s.line_height));
    }
}

#[test]
fn line_without_font_size_is_twelve_pixels_high_at_the_given_pixel_size() {
    // 72 dpi: 100 HWPUNIT per pixel, so a line without a font size is 1200 high.
    let mut p = para("ab", vec![0, 1], vec![]);
    reflow_line_segs(&mut p, 5000, &[], &uniform(2, 100, 0), 100);
    assert_eq!(p.line_segs.len(), 1);
    assert_eq!(p.line_segs[0].line_height, 1200);
    assert_eq!(p.line_segs[0].text_height, 1200);
    assert_eq!(p.line_segs[0].baseline_distance, 1020);
}
