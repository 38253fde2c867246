use corpus::figures::{
    is_drawing, is_substantial, path_ops, scan_pdf, scan_pdf_with, substantial_images, FigurePage,
    FigureReason, FigureScan, FigureWalk, PageFacts, PageSource, PdfDocument, PdfObject,
    ScanProgress,
};

#[test]
fn header_logos_are_not_figures() {
    assert!(!is_substantial(180, 60));
    assert!(!is_substantial(199, 900));
    // The Part 173 header band repeats on every page.
    assert!(!is_substantial(868, 225));
}

#[test]
fn pasted_charts_are_figures() {
    assert!(is_substantial(900, 700));
    assert!(is_substantial(500, 500));
    assert!(is_substantial(900, 300));
    // A rotated diagram: narrow but tall.
    assert!(is_substantial(396, 611));
}

#[test]
fn letters_inside_text_strings_are_not_path_operators() {
    // A prose page: the words contain l, m, c, f, S as substrings.
    let content = b"BT /F1 12 Tf 14 TL (Confirmation of compliance) Tj (filler) Tj ET";
    assert_eq!(path_ops(content), 0);
}

#[test]
fn strings_do_not_count() {
    assert_eq!(path_ops(b"BT (a l b) Tj ET"), 0);
    assert_eq!(path_ops(b"BT (m (l) c) Tj ET"), 0);
    assert_eq!(path_ops(b"BT (m \\) l \\( c) Tj ET"), 0);
    assert_eq!(path_ops(b"BT (m \\\\) Tj 1 2 l"), 1);
    assert_eq!(path_ops(b"[(m) 3 (l l) ] TJ 0 0 m 1 1 l(text)Tj S"), 3);
    // A parenthesis that is never closed opens no string.
    assert_eq!(path_ops(b"1 2 m (3 4 l S"), 3);
}

#[test]
fn figure_geometry_counts_as_paths() {
    let content = b"1 0 0 1 0 0 cm 4 72 300 200 re S 10 20 m 30 40 l 50 60 c S f";
    assert_eq!(path_ops(content), 7);
    // A real figure page paints far more paths than a hand-written sample.
    assert!(is_drawing(60, 30));
    assert!(is_drawing(400, 400));
    assert!(!is_drawing(path_ops(content), 30));
}

#[test]
fn a_prose_page_is_not_drawing_geometry() {
    assert!(!is_drawing(path_ops(b"BT (Altitude 1500 ft) Tj ET"), 400));
    assert!(!is_drawing(59, 20));
    assert!(!is_drawing(200, 401));
}

#[test]
fn scan_reports_pages_and_figures() {
    let scan = FigureScan {
        pages: 4,
        figure_pages: vec![
            FigurePage { page: 2, reason: FigureReason::Raster, images: 1 },
            FigurePage { page: 3, reason: FigureReason::Drawing, images: 0 },
        ],
    };
    assert_eq!(scan.raster_pages(), 1);
    assert_eq!(scan.drawing_pages(), 1);
    assert!(scan.needs_vision());
    assert!(!FigureScan::default().needs_vision());
}

fn name(text: &str) -> PdfObject {
    PdfObject::Name(text.as_bytes().to_vec())
}

fn entry(key: &str, object: PdfObject) -> (Vec<u8>, PdfObject) {
    (key.as_bytes().to_vec(), object)
}

fn image(width: i64, height: i64) -> PdfObject {
    PdfObject::Stream(vec![
        entry("Subtype", name("Image")),
        entry("Width", PdfObject::Integer(width)),
        entry("Height", PdfObject::Integer(height)),
    ])
}

/// A page with one large image of its own, a page that has a small one from its parent, and a page
/// without images.
fn sample() -> PdfDocument {
    PdfDocument {
        objects: vec![
            (
                (1, 0),
                PdfObject::Dictionary(vec![entry(
                    "Resources",
                    PdfObject::Dictionary(vec![entry(
                        "XObject",
                        PdfObject::Dictionary(vec![entry("Im0", PdfObject::Reference((5, 0)))]),
                    )]),
                )]),
            ),
            ((2, 0), PdfObject::Dictionary(vec![entry("Parent", PdfObject::Reference((4, 0)))])),
            ((3, 0), PdfObject::Dictionary(vec![])),
            (
                (4, 0),
                PdfObject::Dictionary(vec![entry(
                    "Resources",
                    PdfObject::Dictionary(vec![entry(
                        "XObject",
                        PdfObject::Dictionary(vec![
                            entry("Im0", PdfObject::Reference((6, 0))),
                            entry("Im1", PdfObject::Reference((9, 9))),
                        ]),
                    )]),
                )]),
            ),
            ((5, 0), image(900, 700)),
            ((6, 0), image(180, 60)),
        ],
    }
}

#[test]
fn large_images_are_counted() {
    let document = sample();
    assert_eq!(substantial_images(&document, document.get_object((1, 0)).unwrap()), 1);
    assert_eq!(substantial_images(&document, document.get_object((2, 0)).unwrap()), 0);
    assert_eq!(substantial_images(&document, document.get_object((3, 0)).unwrap()), 0);
    assert!(document.get_object((7, 0)).is_none());
}

#[test]
fn a_scan_finds_images_and_drawings() {
    let document = sample();
    let drawn: Vec<u8> = b"0 0 m 1 1 l S ".repeat(30);
    let sources = vec![
        PageSource { id: (1, 0), content: Some(drawn.clone()) },
        PageSource { id: (2, 0), content: Some(drawn.clone()) },
        PageSource { id: (3, 0), content: Some(b"BT (text) Tj ET".to_vec()) },
        PageSource { id: (8, 0), content: Some(drawn) },
    ];
    let texts = vec!["long ".repeat(200), "Figure 1".to_string(), "prose".to_string()];
    let (scan, reports) = scan_pdf_with(&document, &sources, &texts);
    assert_eq!(scan.pages, 4);
    assert_eq!(
        scan.figure_pages,
        vec![
            FigurePage { page: 1, reason: FigureReason::Raster, images: 1 },
            FigurePage { page: 2, reason: FigureReason::Drawing, images: 0 },
        ]
    );
    assert_eq!(reports[0], ScanProgress { text_phase: true, page: 0, pages: 4 });
    assert_eq!(reports[reports.len() - 1], ScanProgress { text_phase: false, page: 4, pages: 4 });
    assert_eq!(scan_pdf(&document, &sources, &texts).figure_pages, scan.figure_pages);
}

#[test]
fn figure_pages_stand_in_page_order_and_reports_move_forward() {
    let (mut walk, first) = FigureWalk::new(40);
    assert!(first.text_phase);
    let mut seen: Vec<usize> = Vec::new();
    for page in 0..40 {
        if let Some(report) = walk.report() {
            seen.push(report.page);
        }
        let images = if page % 3 == 0 { 1 } else { 0 };
        walk.step(PageFacts { readable: true, images, ops: 0, text_chars: 0 });
    }
    let (last, scan) = walk.finish(40);
    if let Some(report) = last {
        seen.push(report.page);
    }
    assert!(seen.windows(2).all(|pair| pair[0] < pair[1]), "{seen:?}");
    assert_eq!(*seen.last().unwrap(), 40);
    assert_eq!(scan.figure_pages.len(), 14);
    assert!(scan.figure_pages.windows(2).all(|pair| pair[0].page < pair[1].page));
    assert_eq!(scan.raster_pages() + scan.drawing_pages(), scan.figure_pages.len());
}
