use usvg::fontdb::{Database, Family};
use hwp_linebreak::pdf::{
    add_font_fallbacks, chars_of, finish_svg_page, pdf_conversion_failure_message,
    check_svg_parse, replace_all, svg_parse_failure_message, svgs_to_pdfs_start,
    svgs_to_pdfs_step, PdfBatch,
};

fn chars(s: &str) -> Vec<char> {
    s.chars().collect()
}

const PAGE: &str = "<svg xmlns=\"http://www.w3.org/2000/svg\" width=\"100\" height=\"50\"><rect x=\"10\" y=\"10\" width=\"30\" height=\"20\" fill=\"red\"/></svg>";

#[test]
fn replace_every_occurrence_left_to_right() {
    let r = replace_all(&chars("aaa-aa"), &chars("aa"), &chars("b"));
    assert_eq!(r.iter().collect::<String>(), "ba-b");
    let r = replace_all(&chars("xyz"), &chars("q"), &chars("w"));
    assert_eq!(r.iter().collect::<String>(), "xyz");
    let r = replace_all(&chars(""), &chars("q"), &chars("w"));
    assert!(r.is_empty());
}

#[test]
fn characters_of_a_string() {
    assert_eq!(chars_of("가a漢"), vec!['가', 'a', '漢']);
}

#[test]
fn fallbacks_for_hangul_fonts() {
    let svg = "<text font-family=\"휴먼명조\">가</text><text font-family=\"HCI Poppy\">나</text><text font-family=\"휴먼명조\">다</text>";
    assert_eq!(
        add_font_fallbacks(svg),
        "<text font-family=\"휴먼명조, 바탕, serif\">가</text><text font-family=\"HCI Poppy, 맑은 고딕, sans-serif\">나</text><text font-family=\"휴먼명조, 바탕, serif\">다</text>"
    );
}

#[test]
fn svg_without_those_fonts_is_unchanged() {
    let svg = "<text font-family=\"바탕\">가</text>";
    assert_eq!(add_font_fallbacks(svg), svg);
    assert_eq!(add_font_fallbacks(""), "");
}

#[test]
fn failure_messages() {
    assert_eq!(svg_parse_failure_message("bad"), "SVG 파싱 실패: bad");
    assert_eq!(pdf_conversion_failure_message("InvalidImage"), "PDF 변환 실패: InvalidImage");
}

fn svg_to_pdf(svg: &str, options: &usvg::Options) -> Result<Vec<u8>, String> {
    let text = add_font_fallbacks(svg);
    let parsed = usvg::Tree::from_str(&text, options).map_err(|e| format!("{}", e));
    let tree = check_svg_parse(parsed)?;
    finish_svg_page(
        svg2pdf::to_pdf(&tree, svg2pdf::ConversionOptions::default(), svg2pdf::PageOptions::default())
            .map_err(|e| format!("{:?}", e)),
    )
}

fn svgs_to_pdfs(pages: &[String], options: &usvg::Options) -> Result<Vec<Vec<u8>>, String> {
    let mut batch = svgs_to_pdfs_start(pages.len());
    loop {
        match batch {
            PdfBatch::Finished(r) => return r,
            PdfBatch::Converting(pdfs) => {
                let outcome = svg_to_pdf(&pages[pdfs.len()], options);
                batch = svgs_to_pdfs_step(pdfs, pages.len(), outcome);
            }
        }
    }
}

#[test]
fn one_page_to_pdf() {
    let options = usvg::Options::default();
    let pdf = svg_to_pdf(PAGE, &options).unwrap();
    assert!(pdf.starts_with(b"%PDF-1.7\n"));
}

#[test]
fn unparsable_page_reports_the_parse_failure() {
    let options = usvg::Options::default();
    let err = svg_to_pdf("this is not svg", &options).unwrap_err();
    assert!(err.starts_with("SVG 파싱 실패: "), "{}", err);
    assert_eq!(
        check_svg_parse(Err("bad".to_string())).unwrap_err(),
        "SVG 파싱 실패: bad"
    );
    let tree = usvg::Tree::from_str(PAGE, &options).unwrap();
    assert!(check_svg_parse(Ok(tree)).is_ok());
}

#[test]
fn conversion_outcome_of_a_page() {
    assert_eq!(finish_svg_page(Ok(vec![1, 2, 3])), Ok(vec![1, 2, 3]));
    assert_eq!(
        finish_svg_page(Err("TooMuchNesting".to_string())),
        Err("PDF 변환 실패: TooMuchNesting".to_string())
    );
}

#[test]
fn empty_batch_finishes_at_once() {
    match svgs_to_pdfs_start(0) {
        PdfBatch::Finished(Ok(pdfs)) => assert!(pdfs.is_empty()),
        _ => panic!("an empty batch converts nothing"),
    }
    match svgs_to_pdfs_start(2) {
        PdfBatch::Converting(pdfs) => assert!(pdfs.is_empty()),
        _ => panic!("a batch of pages starts with the first page"),
    }
}

#[test]
fn batch_steps_in_page_order() {
    match svgs_to_pdfs_step(vec![], 2, Ok(vec![7])) {
        PdfBatch::Converting(pdfs) => assert_eq!(pdfs, vec![vec![7]]),
        _ => panic!("one page of two is converted"),
    }
    match svgs_to_pdfs_step(vec![vec![7]], 2, Ok(vec![8])) {
        PdfBatch::Finished(Ok(pdfs)) => assert_eq!(pdfs, vec![vec![7], vec![8]]),
        _ => panic!("both pages are converted"),
    }
    match svgs_to_pdfs_step(vec![vec![7]], 3, Err("SVG 파싱 실패: x".to_string())) {
        PdfBatch::Finished(Err(m)) => assert_eq!(m, "SVG 파싱 실패: x"),
        _ => panic!("a failure ends the batch"),
    }
}

#[test]
fn several_pages_to_pdfs() {
    let options = usvg::Options::default();
    let pages = vec![PAGE.to_string(), PAGE.to_string()];
    let pdfs = svgs_to_pdfs(&pages, &options).unwrap();
    assert_eq!(pdfs.len(), 2);
    assert!(pdfs.iter().all(|p| p.starts_with(b"%PDF")));
    assert!(svgs_to_pdfs(&[], &options).unwrap().is_empty());
    let bad = vec![PAGE.to_string(), "<svg".to_string()];
    assert!(svgs_to_pdfs(&bad, &options).unwrap_err().starts_with("SVG 파싱 실패: "));
}

#[test]
fn too_deep_page_reports_the_conversion_failure() {
    let options = usvg::Options::default();
    let mut svg = String::from("<svg xmlns=\"http://www.w3.org/2000/svg\" width=\"100\" height=\"50\">");
    for _ in 0..40 {
        svg.push_str("<g>");
    }
    svg.push_str("<rect width=\"10\" height=\"10\"/>");
    for _ in 0..40 {
        svg.push_str("</g>");
    }
    svg.push_str("</svg>");
    let err = svg_to_pdf(&svg, &options).unwrap_err();
    assert_eq!(err, "PDF 변환 실패: TooMuchNesting");
}

#[test]
fn hangul_generic_families() {
    let mut db = Database::new();
    hwp_linebreak::pdf::set_hangul_generic_families(&mut db);
    assert_eq!(db.family_name(&Family::Serif), "바탕");
    assert_eq!(db.family_name(&Family::SansSerif), "맑은 고딕");
    assert_eq!(db.family_name(&Family::Monospace), "D2Coding");
    assert_eq!(db.family_name(&Family::Cursive), "Comic Sans MS");
}

#[test]
fn fallbacks_added_twice_are_added_once() {
    let svg = "<text font-family=\"휴먼명조\">가</text><text font-family=\"HCI Poppy\">나</text>";
    let once = add_font_fallbacks(svg);
    assert_eq!(add_font_fallbacks(&once), once);
}
