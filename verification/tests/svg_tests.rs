use justlatex::svg::{
    glyph_run_extent, paths_to_bboxes, refine_y_range, split_svgs, texts_to_bboxes,
    x_range_for_y_range, BoundingBox, DrawingNode, GlyphPlacement, PageGeometry, RunExtent,
};
use justlatex::units::{is_in_domain, to_output, COORD_LIMIT, UNITS_PER_BP, UNITS_PER_SP};

fn bbox(left: i64, top: i64, right: i64, bottom: i64) -> BoundingBox {
    BoundingBox { left, top, right, bottom }
}

#[test]
fn x_range_covers_boxes_in_band() {
    let boxes = vec![bbox(10, 0, 20, 5), bbox(-3, 6, 4, 9), bbox(100, 50, 200, 60), bbox(7, 12, 30, 15)];
    assert_eq!(x_range_for_y_range(&boxes, 5, 10, 0, 0), Some((-3, 20)));
    assert_eq!(x_range_for_y_range(&boxes, 5, 10, 2, 0), Some((-3, 30)));
    assert_eq!(x_range_for_y_range(&boxes, 5, 10, 2, 3), Some((-6, 33)));
    assert_eq!(x_range_for_y_range(&boxes, 20, 40, 0, 3), None);
    assert_eq!(x_range_for_y_range(&boxes, 20, 40, 10, 1), Some((6, 201)));
    assert_eq!(x_range_for_y_range(&boxes, 30, 40, 10, 1), Some((99, 201)));
    assert_eq!(x_range_for_y_range(&[], 0, 10, 5, 5), None);
}

#[test]
fn x_range_band_touching_counts() {
    let boxes = vec![bbox(1, 10, 2, 20)];
    assert_eq!(x_range_for_y_range(&boxes, 0, 10, 0, 0), Some((1, 2)));
    assert_eq!(x_range_for_y_range(&boxes, 20, 30, 0, 0), Some((1, 2)));
    assert_eq!(x_range_for_y_range(&boxes, 0, 9, 0, 0), None);
    assert_eq!(x_range_for_y_range(&boxes, 21, 30, 0, 0), None);
    assert_eq!(x_range_for_y_range(&boxes, 12, 13, 0, 0), Some((1, 2)));
    assert_eq!(x_range_for_y_range(&boxes, 0, 100, 0, 0), Some((1, 2)));
}

#[test]
fn y_range_is_refined_or_kept() {
    let boxes = vec![bbox(10, 0, 20, 5), bbox(-3, 6, 4, 9), bbox(7, 12, 30, 15)];
    assert_eq!(refine_y_range(&boxes, 5, 10, 0, 0), (0, 9));
    assert_eq!(refine_y_range(&boxes, 5, 10, 2, 1), (-1, 16));
    assert_eq!(refine_y_range(&boxes, 20, 40, 1, 3), (17, 43));
    assert_eq!(refine_y_range(&[], 20, 40, 100, 0), (20, 40));
}

#[test]
fn units_convert_exactly() {
    assert_eq!(UNITS_PER_SP, 800);
    assert_eq!(UNITS_PER_BP, 803 * 65536);
    assert_eq!(to_output(65536, 0), UNITS_PER_BP / 803 * 800);
    assert_eq!(to_output(-3, 10), -2390);
    assert!(is_in_domain(COORD_LIMIT));
    assert!(is_in_domain(-COORD_LIMIT));
    assert!(!is_in_domain(COORD_LIMIT + 1));
    assert!(bbox(0, 0, 0, 0).is_wf());
    assert!(!bbox(1, 0, 0, 0).is_wf());
    assert!(!bbox(0, 1, 0, 0).is_wf());
    assert!(!bbox(0, 0, i64::MAX, 0).is_wf());
}

#[test]
fn stream_is_split_at_page_declarations() {
    let stream = b"junk<?xml version='1.0'?><svg>1</svg>\n<?xml\tversion='1.0'?><svg/><?xml-stylesheet?><?xml ";
    let pages = split_svgs(stream);
    assert_eq!(pages.len(), 3);
    assert_eq!(pages[0], &b"<?xml version='1.0'?><svg>1</svg>\n"[..]);
    assert_eq!(pages[1], &b"<?xml\tversion='1.0'?><svg/><?xml-stylesheet?>"[..]);
    assert_eq!(pages[2], &b"<?xml "[..]);
}

#[test]
fn stream_without_declaration_has_no_page() {
    assert_eq!(split_svgs(b"<svg/>").len(), 0);
    assert_eq!(split_svgs(b"").len(), 0);
    assert_eq!(split_svgs(b"<?xml").len(), 0);
    assert_eq!(split_svgs(b"<?xmlx").len(), 0);
    assert_eq!(split_svgs(b"<?xml\n"), vec![&b"<?xml\n"[..]]);
}

fn leaf(b: Option<BoundingBox>) -> DrawingNode {
    DrawingNode { bbox: b, children: vec![] }
}

#[test]
fn geometry_index_holds_leaves_only() {
    let root = DrawingNode {
        bbox: Some(bbox(0, 0, 100, 100)),
        children: vec![
            leaf(Some(bbox(1, 1, 2, 2))),
            DrawingNode {
                bbox: Some(bbox(3, 3, 9, 9)),
                children: vec![leaf(None), leaf(Some(bbox(3, 3, 4, 4))), leaf(Some(bbox(8, 8, 9, 9)))],
            },
            leaf(Some(bbox(50, 50, 60, 60))),
        ],
    };
    assert_eq!(
        paths_to_bboxes(&root),
        vec![bbox(1, 1, 2, 2), bbox(3, 3, 4, 4), bbox(8, 8, 9, 9), bbox(50, 50, 60, 60)]
    );
    assert_eq!(paths_to_bboxes(&leaf(Some(bbox(1, 2, 3, 4)))), vec![bbox(1, 2, 3, 4)]);
    assert_eq!(paths_to_bboxes(&leaf(None)), vec![]);
}

fn glyph(x_advance: i32, x_offset: i32, y_offset: i32, x_min: i16, y_min: i16, x_max: i16, y_max: i16) -> GlyphPlacement {
    GlyphPlacement { x_advance, y_advance: 0, x_offset, y_offset, x_min, y_min, x_max, y_max }
}

#[test]
fn run_extent_is_union_of_glyph_boxes() {
    let run = vec![
        glyph(600, 0, 0, 50, -200, 550, 700),
        glyph(500, 10, 20, -30, 0, 400, 900),
        glyph(300, 0, -100, 0, -10, 250, 10),
    ];
    assert_eq!(
        glyph_run_extent(&run),
        Some(RunExtent { left: 50, top: -920, right: 1350, bottom: 200 })
    );
    assert_eq!(glyph_run_extent(&run[..1]), Some(RunExtent { left: 50, top: -700, right: 550, bottom: 200 }));
    assert_eq!(glyph_run_extent(&[]), None);
    let mut down = glyph(0, 0, 0, 0, 0, 10, 10);
    down.y_advance = 100;
    assert_eq!(
        glyph_run_extent(&[down, down]),
        Some(RunExtent { left: 0, top: -10, right: 10, bottom: 100 })
    );
    assert_eq!(
        texts_to_bboxes(&vec![vec![], run.clone(), vec![down]]),
        vec![
            None,
            Some(RunExtent { left: 50, top: -920, right: 1350, bottom: 200 }),
            Some(RunExtent { left: 0, top: -10, right: 10, bottom: 0 })
        ]
    );
}

#[test]
fn run_that_encloses_nothing_has_no_extent() {
    let inside_out = glyph(600, 0, 0, 550, -200, 50, 700);
    assert_eq!(glyph_run_extent(&[inside_out]), None);
    let upside_down = glyph(600, 0, 0, 50, 700, 550, -200);
    assert_eq!(glyph_run_extent(&[upside_down]), None);
    let point = glyph(600, 0, 0, 5, 5, 5, 5);
    assert_eq!(glyph_run_extent(&[point]), Some(RunExtent { left: 5, top: -5, right: 5, bottom: -5 }));
    let good = glyph(600, 0, 0, 50, -200, 550, 700);
    assert_eq!(
        glyph_run_extent(&[inside_out, good]),
        Some(RunExtent { left: 550, top: -700, right: 1150, bottom: 200 })
    );
    assert_eq!(texts_to_bboxes(&vec![vec![inside_out], vec![point]]).iter().filter(|e| e.is_some()).count(), 1);
}

#[test]
fn page_geometry_is_checked() {
    assert!(PageGeometry { top: 0, bboxes: vec![bbox(0, 0, 1, 1)] }.is_wf());
    assert!(!PageGeometry { top: 0, bboxes: vec![bbox(0, 0, 1, 1), bbox(2, 0, 1, 1)] }.is_wf());
    assert!(!PageGeometry { top: i64::MIN, bboxes: vec![] }.is_wf());
    assert!(PageGeometry { top: -(1 << 59), bboxes: vec![] }.is_wf());
    assert!(!PageGeometry { top: (1 << 59) + 1, bboxes: vec![] }.is_wf());
}
