use justlatex::fragment::FragmentType;
use justlatex::region::{
    collect_regions, place_region, resolve_fragment, resolve_regions, PageRegion,
    PositionResolutionFailure, PositionedImage, Region, SeenBoxes, Tolerances,
};
use justlatex::svg::{BoundingBox, PageGeometry};
use justlatex::synctex::{IndexEntry, Scanner, TeXBox};

fn tex_box(h: i32, v: i32, width: i32, height: i32, depth: i32, page: u32) -> TeXBox {
    TeXBox { h, v, height, width, depth, page }
}

fn entry(line: usize, b: TeXBox) -> IndexEntry {
    IndexEntry { line, tex_box: b }
}

fn no_tolerance() -> Tolerances {
    Tolerances { y_range_tol: 0, x_range_margin: 0, y_range_margin: 0 }
}

#[test]
fn inline_fragment_with_one_box() {
    let scanner = Scanner::new(vec![entry(5, tex_box(100, 200, 50, 10, 2, 1))]);
    let mut seen = SeenBoxes::new();
    let regions = collect_regions(&scanner, 5, 6, &mut seen);
    assert_eq!(regions.len(), 1);
    assert_eq!(regions[0].page, 1);
    assert_eq!(regions[0].region.x_range, (100, 150));
    assert_eq!(regions[0].region.y_range, (190, 202));
    assert_eq!(regions[0].region.baseline, 200);
    assert_eq!(regions[0].region.y_range.1 - regions[0].region.baseline, 2);
}

#[test]
fn fragment_without_boxes_fails() {
    let scanner = Scanner::new(vec![entry(5, tex_box(100, 200, 50, 10, 2, 1))]);
    let mut seen = SeenBoxes::new();
    let pages = vec![PageGeometry { top: 0, bboxes: vec![] }];
    let result =
        resolve_fragment(FragmentType::InlineMath, 7, 9, &scanner, &mut seen, &pages, no_tolerance());
    assert_eq!(result, Err(PositionResolutionFailure::NoBoxes));
}

#[test]
fn fragment_with_only_empty_boxes_fails() {
    let scanner = Scanner::new(vec![
        entry(5, tex_box(100, 200, 0, 10, 2, 1)),
        entry(5, tex_box(100, 200, 50, 0, 0, 1)),
        entry(5, tex_box(100, 200, 50, 5, -5, 1)),
        entry(5, tex_box(100, 200, -3, 10, 2, 1)),
    ]);
    let mut seen = SeenBoxes::new();
    let pages = vec![PageGeometry { top: 0, bboxes: vec![] }];
    let result =
        resolve_fragment(FragmentType::DisplayMath, 5, 6, &scanner, &mut seen, &pages, no_tolerance());
    assert_eq!(result, Err(PositionResolutionFailure::NoBoxes));
    assert!(!seen.contains(tex_box(100, 200, 0, 10, 2, 1)));
    assert!(!seen.contains(tex_box(100, 200, -3, 10, 2, 1)));
}

#[test]
fn scanner_drops_boxes_of_size_zero_only() {
    let thin = tex_box(100, 200, 0, 10, 2, 1);
    let flat = tex_box(100, 200, 50, 0, 0, 1);
    let cancelled = tex_box(100, 200, 50, 5, -5, 1);
    let backwards = tex_box(100, 200, -3, 10, 2, 1);
    let upside_down = tex_box(100, 200, 3, -10, 2, 1);
    let good = tex_box(100, 200, 3, 10, 2, 1);
    let scanner = Scanner::new(vec![
        entry(5, thin),
        entry(5, flat),
        entry(5, cancelled),
        entry(5, backwards),
        entry(5, upside_down),
        entry(5, good),
    ]);
    assert_eq!(scanner.query(5), vec![backwards, upside_down, good]);
    assert!(thin.is_empty() && flat.is_empty() && cancelled.is_empty());
    assert!(!backwards.is_empty() && !upside_down.is_empty() && !good.is_empty());
    assert!(!backwards.is_visible() && !upside_down.is_visible() && good.is_visible());
    let mut seen = SeenBoxes::new();
    let pages = vec![PageGeometry { top: 0, bboxes: vec![] }];
    let images =
        resolve_fragment(FragmentType::DisplayMath, 5, 6, &scanner, &mut seen, &pages, no_tolerance())
            .unwrap();
    assert_eq!(images.len(), 1);
    assert!(seen.contains(good));
    assert!(!seen.contains(backwards));
    assert!(!seen.contains(upside_down));
}

#[test]
fn inline_fragment_on_two_pages_fails() {
    let scanner = Scanner::new(vec![
        entry(5, tex_box(100, 200, 50, 10, 2, 2)),
        entry(5, tex_box(100, 300, 50, 10, 2, 1)),
    ]);
    let mut seen = SeenBoxes::new();
    let pages = vec![
        PageGeometry { top: 0, bboxes: vec![BoundingBox { left: 0, top: 0, right: 1, bottom: 1 }] },
        PageGeometry { top: 0, bboxes: vec![] },
    ];
    let result =
        resolve_fragment(FragmentType::InlineMath, 5, 6, &scanner, &mut seen, &pages, no_tolerance());
    assert_eq!(result, Err(PositionResolutionFailure::SpansPages(vec![1, 2])));
}

#[test]
fn display_fragment_on_two_pages_gets_two_images() {
    let scanner = Scanner::new(vec![
        entry(5, tex_box(100, 200, 50, 10, 2, 2)),
        entry(6, tex_box(10, 300, 50, 10, 2, 1)),
    ]);
    let mut seen = SeenBoxes::new();
    let pages = vec![PageGeometry { top: 0, bboxes: vec![] }, PageGeometry { top: 7, bboxes: vec![] }];
    let images =
        resolve_fragment(FragmentType::DisplayMath, 5, 7, &scanner, &mut seen, &pages, no_tolerance())
            .unwrap();
    assert_eq!(images.len(), 2);
    assert_eq!(
        images[0],
        PositionedImage {
            page: 1,
            x: 10 * 800,
            y: 290 * 800,
            width: 50 * 800,
            height: 12 * 800,
            baseline_offset: 0
        }
    );
    assert_eq!(
        images[1],
        PositionedImage {
            page: 2,
            x: 100 * 800,
            y: 190 * 800 + 7,
            width: 50 * 800,
            height: 12 * 800,
            baseline_offset: 0
        }
    );
}

#[test]
fn box_on_page_that_was_not_rendered_fails() {
    let scanner = Scanner::new(vec![entry(5, tex_box(100, 200, 50, 10, 2, 3))]);
    let mut seen = SeenBoxes::new();
    let pages = vec![PageGeometry { top: 0, bboxes: vec![] }];
    let result =
        resolve_fragment(FragmentType::InlineMath, 5, 6, &scanner, &mut seen, &pages, no_tolerance());
    assert_eq!(result, Err(PositionResolutionFailure::PageNotRendered(3)));
    let zero = Scanner::new(vec![entry(5, tex_box(100, 200, 50, 10, 2, 0))]);
    let mut seen = SeenBoxes::new();
    let result =
        resolve_fragment(FragmentType::InlineMath, 5, 6, &zero, &mut seen, &pages, no_tolerance());
    assert_eq!(result, Err(PositionResolutionFailure::PageNotRendered(0)));
}

#[test]
fn fragment_that_is_not_shown_gets_no_image() {
    let b = tex_box(100, 200, 50, 10, 2, 1);
    let scanner = Scanner::new(vec![entry(5, b)]);
    let mut seen = SeenBoxes::new();
    let pages = vec![PageGeometry { top: 0, bboxes: vec![] }];
    let result =
        resolve_fragment(FragmentType::DontShow, 5, 6, &scanner, &mut seen, &pages, no_tolerance());
    assert_eq!(result, Ok(vec![]));
    assert!(!seen.contains(b));
}

#[test]
fn a_box_is_folded_once_in_a_render() {
    let b = tex_box(100, 200, 50, 10, 2, 1);
    let scanner = Scanner::new(vec![entry(5, b), entry(6, b), entry(6, tex_box(0, 0, 1, 1, 1, 1))]);
    let mut seen = SeenBoxes::new();
    let first = collect_regions(&scanner, 5, 6, &mut seen);
    assert_eq!(first.len(), 1);
    assert!(seen.contains(b));
    let second = collect_regions(&scanner, 6, 7, &mut seen);
    assert_eq!(second.len(), 1);
    assert_eq!(second[0].region.x_range, (0, 1));
    assert_eq!(second[0].region.y_range, (-1, 1));
    let third = collect_regions(&scanner, 5, 7, &mut seen);
    assert_eq!(third.len(), 0);
}

#[test]
fn seen_boxes_insert_reports_new_boxes() {
    let mut seen = SeenBoxes::new();
    let b = tex_box(1, 2, 3, 4, 5, 6);
    assert!(!seen.contains(b));
    assert!(seen.insert(b));
    assert!(!seen.insert(b));
    assert!(seen.contains(b));
}

#[test]
fn region_is_union_and_baseline_is_first_widest() {
    let scanner = Scanner::new(vec![
        entry(1, tex_box(10, 100, 30, 5, 1, 1)),
        entry(1, tex_box(0, 120, 40, 8, 2, 1)),
        entry(2, tex_box(20, 90, 40, 3, 50, 1)),
        entry(2, tex_box(5, 95, 20, 1, 1, 1)),
    ]);
    let mut seen = SeenBoxes::new();
    let regions = collect_regions(&scanner, 1, 3, &mut seen);
    assert_eq!(
        regions,
        vec![PageRegion {
            page: 1,
            region: Region {
                x_range: (0, 60),
                y_range: (87, 140),
                baseline: 120,
                baseline_width: 40
            }
        }]
    );
}

#[test]
fn empty_line_range_collects_nothing() {
    let scanner = Scanner::new(vec![entry(5, tex_box(100, 200, 50, 10, 2, 1))]);
    let mut seen = SeenBoxes::new();
    assert_eq!(collect_regions(&scanner, 6, 5, &mut seen).len(), 0);
    assert_eq!(collect_regions(&scanner, 5, 5, &mut seen).len(), 0);
}

fn sample_region() -> PageRegion {
    PageRegion {
        page: 1,
        region: Region { x_range: (100, 150), y_range: (190, 202), baseline: 200, baseline_width: 50 },
    }
}

#[test]
fn inline_image_without_geometry_keeps_typeset_range() {
    let geometry = PageGeometry { top: -1000, bboxes: vec![] };
    let tol = Tolerances { y_range_tol: 3, x_range_margin: 11, y_range_margin: 13 };
    let image = place_region(FragmentType::InlineMath, sample_region(), &geometry, tol);
    assert_eq!(
        image,
        PositionedImage {
            page: 1,
            x: 100 * 800 - 11,
            y: 190 * 800 - 1000,
            width: 50 * 800 + 22,
            height: 12 * 800,
            baseline_offset: 2 * 800
        }
    );
}

#[test]
fn inline_image_is_refined_horizontally() {
    let geometry = PageGeometry {
        top: 0,
        bboxes: vec![
            BoundingBox { left: 70_000, top: 150_000, right: 90_000, bottom: 155_000 },
            BoundingBox { left: 1, top: 1, right: 2, bottom: 2 },
            BoundingBox { left: 85_000, top: 161_000, right: 130_000, bottom: 170_000 },
            BoundingBox { left: 0, top: 161_603, right: 5, bottom: 161_700 },
        ],
    };
    let tol = Tolerances { y_range_tol: 2, x_range_margin: 10, y_range_margin: 1000 };
    let image = place_region(FragmentType::InlineMath, sample_region(), &geometry, tol);
    assert_eq!(
        image,
        PositionedImage {
            page: 1,
            x: 70_000 - 10,
            y: 152_000,
            width: 60_000 + 20,
            height: 9_600,
            baseline_offset: 1_600
        }
    );
}

#[test]
fn display_image_is_refined_in_both_directions() {
    let geometry = PageGeometry {
        top: 0,
        bboxes: vec![
            BoundingBox { left: 70_000, top: 150_000, right: 90_000, bottom: 155_000 },
            BoundingBox { left: 85_000, top: 161_000, right: 130_000, bottom: 170_000 },
        ],
    };
    let tol = Tolerances { y_range_tol: 0, x_range_margin: 10, y_range_margin: 1000 };
    let image = place_region(FragmentType::DisplayMath, sample_region(), &geometry, tol);
    assert_eq!(
        image,
        PositionedImage {
            page: 1,
            x: 70_000 - 10,
            y: 150_000 - 1000,
            width: 60_000 + 20,
            height: 20_000 + 2000,
            baseline_offset: 0
        }
    );
    let raw = place_region(FragmentType::RawBlock, sample_region(), &geometry, tol);
    assert_eq!(raw, image);
}

#[test]
fn display_image_without_geometry_gets_margin() {
    let geometry = PageGeometry { top: 5, bboxes: vec![] };
    let tol = Tolerances { y_range_tol: 7, x_range_margin: 10, y_range_margin: 1000 };
    let image = place_region(FragmentType::DisplayMath, sample_region(), &geometry, tol);
    assert_eq!(
        image,
        PositionedImage {
            page: 1,
            x: 80_000 - 10,
            y: 152_005 - 1000,
            width: 40_000 + 20,
            height: 9_600 + 2000,
            baseline_offset: 0
        }
    );
}

#[test]
fn regions_resolve_in_order_of_failures() {
    let pages = vec![PageGeometry { top: 0, bboxes: vec![] }];
    let none: Vec<PageRegion> = vec![];
    assert_eq!(
        resolve_regions(FragmentType::InlineMath, &none, &pages, no_tolerance()),
        Err(PositionResolutionFailure::NoBoxes)
    );
    let mut far = sample_region();
    far.page = 9;
    let two = vec![sample_region(), far];
    assert_eq!(
        resolve_regions(FragmentType::InlineMath, &two, &pages, no_tolerance()),
        Err(PositionResolutionFailure::SpansPages(vec![1, 9]))
    );
    assert_eq!(
        resolve_regions(FragmentType::RawBlock, &two, &pages, no_tolerance()),
        Err(PositionResolutionFailure::PageNotRendered(9))
    );
}

#[test]
fn tolerances_must_be_lengths() {
    assert!(no_tolerance().is_wf());
    assert!(!Tolerances { y_range_tol: -1, x_range_margin: 0, y_range_margin: 0 }.is_wf());
    assert!(!Tolerances { y_range_tol: 0, x_range_margin: i64::MAX, y_range_margin: 0 }.is_wf());
    assert!(!Tolerances { y_range_tol: 0, x_range_margin: 0, y_range_margin: -5 }.is_wf());
}

#[test]
fn scanner_reports_boxes_of_a_line_in_order() {
    let a = tex_box(1, 1, 1, 1, 1, 1);
    let b = tex_box(2, 2, 2, 2, 2, 1);
    let hidden = tex_box(3, 3, 0, 3, 3, 1);
    let scanner = Scanner::new(vec![entry(4, a), entry(5, b), entry(4, hidden), entry(4, b), entry(4, a)]);
    assert_eq!(scanner.query(4), vec![a, b, a]);
    assert_eq!(scanner.query(5), vec![b]);
    assert_eq!(scanner.query(6), vec![]);
    assert!(a.is_visible());
    assert!(!hidden.is_visible());
    assert!(!tex_box(0, 0, 5, i32::MIN, i32::MIN, 1).is_visible());
    assert!(tex_box(0, 0, 5, i32::MAX, i32::MAX, 1).is_visible());
}

#[test]
fn failures_are_said_in_words() {
    assert_eq!(PositionResolutionFailure::NoBoxes.diagnostic("x+1"), "no boxes for x+1");
    assert_eq!(
        PositionResolutionFailure::SpansPages(vec![1, 2, 10]).diagnostic("x+1"),
        "inline fragments 'x+1' spans multiple pages [1, 2, 10] (did you disable page numbering?)"
    );
    assert_eq!(
        PositionResolutionFailure::SpansPages(vec![7]).diagnostic(""),
        "inline fragments '' spans multiple pages [7] (did you disable page numbering?)"
    );
    assert_eq!(
        PositionResolutionFailure::SpansPages(vec![]).diagnostic("a"),
        "inline fragments 'a' spans multiple pages [] (did you disable page numbering?)"
    );
    assert_eq!(
        PositionResolutionFailure::PageNotRendered(4294967295).diagnostic("\\alpha"),
        "fragment '\\alpha' has a box on page 4294967295, which was not rendered"
    );
}
