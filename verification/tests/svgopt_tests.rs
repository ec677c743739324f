use justlatex::svgopt::classify::{classify, Path, State};
use justlatex::svgopt::fingerprint::{
    PathCommand, PathFingerprint, PathFingerprintElement, PathSegment,
};
use justlatex::svgopt::plan::{definitions, emission, optimize, Emission};
use justlatex::svgopt::rewrite::{
    declares_nameless_doctype, find_attribute, numbered_id, parse_path_id, push_close, push_empty,
    push_open, rewrite, rewrite_event, rewrite_reading, same_bytes, Definition, RewriteError,
};
use justlatex::svgopt::style::{
    is_within, same_paint, same_style, Color, Fill, FillRule, LineCap, LineJoin, Paint,
    ShapeRendering, Stroke, Style, Visibility,
};
use justlatex::text::{format_decimal, format_fixed3};
use justlatex::svgopt::tree::PathTree;
use justlatex::svgopt::xml::{Attribute, Tag};

const UNIT: i64 = 1_000_000;

fn black() -> Paint {
    Paint::Color(Color { red: 0, green: 0, blue: 0 })
}

fn filled(paint: Paint) -> Style {
    Style {
        fill: Some(Fill { paint, opacity: UNIT, rule: FillRule::NonZero }),
        stroke: None,
        rendering_mode: ShapeRendering::GeometricPrecision,
        visibility: Visibility::Visible,
    }
}

fn stroked(dasharray: Option<Vec<i64>>, dashoffset: i64) -> Style {
    Style {
        fill: None,
        stroke: Some(Stroke {
            paint: black(),
            dasharray,
            dashoffset,
            miterlimit: 4 * UNIT,
            opacity: UNIT,
            linecap: LineCap::Butt,
            linejoin: LineJoin::Miter,
        }),
        rendering_mode: ShapeRendering::GeometricPrecision,
        visibility: Visibility::Visible,
    }
}

fn line(x0: i64, y0: i64, x1: i64, y1: i64, style: Style) -> Path {
    Path {
        segments: vec![
            PathSegment::MoveTo { x: x0 * UNIT, y: y0 * UNIT },
            PathSegment::LineTo { x: x1 * UNIT, y: y1 * UNIT },
        ],
        style,
    }
}

fn states(paths: &Vec<Path>, eps: i64) -> Vec<State> {
    classify(paths, eps).iter().map(|r| r.state).collect()
}

#[test]
fn fingerprint_is_relative_to_first_point() {
    let segments = vec![
        PathSegment::MoveTo { x: 5, y: 7 },
        PathSegment::LineTo { x: 15, y: 4 },
        PathSegment::CurveTo { x1: 1, y1: 2, x2: 3, y2: 4, x: 5, y: 6 },
        PathSegment::ClosePath,
    ];
    let fingerprint = PathFingerprint::new(&segments);
    assert_eq!(fingerprint.shift, (5, 7));
    assert_eq!(
        fingerprint.elems,
        vec![
            PathFingerprintElement::Command(PathCommand::MoveTo),
            PathFingerprintElement::Coord(0),
            PathFingerprintElement::Coord(0),
            PathFingerprintElement::Command(PathCommand::LineTo),
            PathFingerprintElement::Coord(10),
            PathFingerprintElement::Coord(-3),
            PathFingerprintElement::Command(PathCommand::CurveTo),
            PathFingerprintElement::Coord(-4),
            PathFingerprintElement::Coord(-5),
            PathFingerprintElement::Coord(-2),
            PathFingerprintElement::Coord(-3),
            PathFingerprintElement::Coord(0),
            PathFingerprintElement::Coord(-1),
            PathFingerprintElement::Command(PathCommand::ClosePath),
        ]
    );
}

#[test]
fn fingerprint_origin_of_a_curve_is_its_end_point() {
    let segments = vec![
        PathSegment::ClosePath,
        PathSegment::CurveTo { x1: 1, y1: 2, x2: 3, y2: 4, x: 5, y: 6 },
        PathSegment::MoveTo { x: 0, y: 0 },
    ];
    let fingerprint = PathFingerprint::new(&segments);
    assert_eq!(fingerprint.shift, (5, 6));
    assert_eq!(fingerprint.elems.len(), 11);
    assert_eq!(fingerprint.elems[2], PathFingerprintElement::Coord(-4));
    assert_eq!(fingerprint.elems[10], PathFingerprintElement::Coord(-6));
}

fn key(coords: &[i64]) -> PathFingerprint {
    let mut elems = vec![PathFingerprintElement::Command(PathCommand::MoveTo)];
    for c in coords {
        elems.push(PathFingerprintElement::Coord(*c));
    }
    PathFingerprint { elems, shift: (0, 0) }
}

fn sorted(mut found: Vec<usize>) -> Vec<usize> {
    found.sort();
    found
}

#[test]
fn tree_finds_all_paths_within_eps() {
    let mut tree = PathTree::new();
    tree.insert(&key(&[10, 20]), 0);
    tree.insert(&key(&[12, 20]), 1);
    tree.insert(&key(&[10, 27]), 2);
    tree.insert(&key(&[10, 20, 30]), 3);
    tree.insert(&key(&[8, 22]), 4);
    tree.insert(&key(&[10, 20]), 5);
    assert_eq!(sorted(tree.find_similar(&key(&[10, 20]), 0)), vec![0, 5]);
    assert_eq!(sorted(tree.find_similar(&key(&[10, 20]), 2)), vec![0, 1, 4, 5]);
    assert_eq!(sorted(tree.find_similar(&key(&[11, 21]), 1)), vec![0, 1, 5]);
    assert_eq!(sorted(tree.find_similar(&key(&[10, 24]), 3)), vec![2, 4]);
    assert_eq!(sorted(tree.find_similar(&key(&[10, 20, 31]), 1)), vec![3]);
    assert_eq!(sorted(tree.find_similar(&key(&[10]), 100)), vec![]);
    assert_eq!(sorted(tree.find_similar(&key(&[10, 20]), -1)), vec![]);
    assert_eq!(sorted(tree.find_similar(&key(&[0, 0]), i64::MAX)), vec![0, 1, 2, 4, 5]);
}

#[test]
fn tree_lists_paths_in_the_order_of_the_tree() {
    assert_eq!(PathTree::default().find_similar(&key(&[10, 20]), i64::MAX), vec![]);
    let mut tree = PathTree::new();
    assert_eq!(tree.find_similar(&key(&[10, 20]), 5), vec![]);
    tree.insert(&key(&[10, 20]), 0);
    assert_eq!(tree.find_similar(&key(&[10, 20]), 0), vec![0]);
    assert_eq!(tree.find_similar(&key(&[11, 19]), 1), vec![0]);
    tree.insert(&key(&[12, 20]), 1);
    tree.insert(&key(&[10, 27]), 2);
    tree.insert(&key(&[10, 20, 30]), 3);
    tree.insert(&key(&[8, 22]), 4);
    let before = tree.find_similar(&key(&[10, 20]), 0);
    assert_eq!(before, vec![0]);
    tree.insert(&key(&[10, 20]), 5);
    assert_eq!(tree.find_similar(&key(&[10, 20]), 0), vec![0, 5]);
    assert_eq!(tree.find_similar(&key(&[10, 20]), 2), vec![4, 0, 5, 1]);
    assert_eq!(tree.find_similar(&key(&[10, 20]), 2), tree.find_similar(&key(&[10, 20]), 2));
    assert_eq!(tree.find_similar(&key(&[0, 0]), i64::MAX), vec![4, 0, 5, 2, 1]);
    assert_eq!(tree.find_similar(&key(&[10, 24]), 3), vec![4, 2]);
    tree.insert(&key(&[10, 20]), 0);
    assert_eq!(tree.find_similar(&key(&[10, 20]), 0), vec![0, 5, 0]);
    assert_eq!(tree.find_similar(&key(&[12, 20]), 0), vec![1]);
    assert_eq!(tree.find_similar(&key(&[9, 21]), 1), vec![4, 0, 5, 0]);
}

#[test]
fn tree_branches_on_commands_exactly() {
    let mut tree = PathTree::new();
    let closed = PathFingerprint {
        elems: vec![
            PathFingerprintElement::Command(PathCommand::MoveTo),
            PathFingerprintElement::Coord(0),
            PathFingerprintElement::Command(PathCommand::ClosePath),
        ],
        shift: (0, 0),
    };
    let open = PathFingerprint {
        elems: vec![
            PathFingerprintElement::Command(PathCommand::MoveTo),
            PathFingerprintElement::Coord(0),
            PathFingerprintElement::Command(PathCommand::LineTo),
        ],
        shift: (0, 0),
    };
    let empty = PathFingerprint { elems: vec![], shift: (0, 0) };
    tree.insert(&closed, 7);
    assert_eq!(tree.find_similar(&closed, 5), vec![7]);
    assert_eq!(tree.find_similar(&open, 5), vec![]);
    assert_eq!(tree.find_similar(&empty, 5), vec![]);
    tree.insert(&empty, 9);
    assert_eq!(tree.find_similar(&empty, 0), vec![9]);
    let extreme = key(&[i64::MIN, i64::MAX]);
    tree.insert(&extreme, 11);
    assert_eq!(tree.find_similar(&extreme, 0), vec![11]);
    assert_eq!(tree.find_similar(&key(&[i64::MIN + 5, i64::MAX - 5]), 5), vec![11]);
    assert_eq!(tree.find_similar(&key(&[i64::MIN + 5, i64::MAX - 5]), 4), vec![]);
}

#[test]
fn values_within_eps() {
    assert!(is_within(5, 5, 0));
    assert!(is_within(5, 7, 2));
    assert!(is_within(7, 5, 2));
    assert!(!is_within(5, 8, 2));
    assert!(!is_within(5, 5, -1));
    assert!(!is_within(i64::MIN, i64::MAX, i64::MAX));
    assert!(is_within(-1, i64::MAX - 1, i64::MAX));
}

#[test]
fn styles_are_told_apart() {
    let red = Paint::Color(Color { red: 255, green: 0, blue: 0 });
    assert!(same_style(&filled(black()), &filled(black()), 0));
    assert!(!same_style(&filled(black()), &filled(red), 1000));
    assert!(same_paint(&Paint::Link("g1".to_string()), &Paint::Link("g1".to_string())));
    assert!(!same_paint(&Paint::Link("g1".to_string()), &Paint::Link("g2".to_string())));
    assert!(!same_paint(&Paint::Link("g1".to_string()), &black()));
    assert!(!same_style(&filled(black()), &stroked(None, 0), 1000));
    let mut other = filled(black());
    other.fill.as_mut().unwrap().opacity = UNIT - 1;
    assert!(!same_style(&filled(black()), &other, 1000));
    let mut other = filled(black());
    other.fill.as_mut().unwrap().rule = FillRule::EvenOdd;
    assert!(!same_style(&filled(black()), &other, 1000));
    let mut other = filled(black());
    other.visibility = Visibility::Hidden;
    assert!(!same_style(&filled(black()), &other, 1000));
    let mut other = filled(black());
    other.rendering_mode = ShapeRendering::CrispEdges;
    assert!(!same_style(&filled(black()), &other, 1000));
}

#[test]
fn strokes_are_told_apart() {
    assert!(same_style(&stroked(None, 0), &stroked(None, 0), 0));
    assert!(same_style(&stroked(None, 0), &stroked(None, 1000), 1000));
    assert!(!same_style(&stroked(None, 0), &stroked(None, 1001), 1000));
    assert!(!same_style(&stroked(None, 0), &stroked(Some(vec![]), 0), 1000));
    assert!(same_style(&stroked(Some(vec![10, 20]), 0), &stroked(Some(vec![11, 19]), 0), 1));
    assert!(!same_style(&stroked(Some(vec![10, 20]), 0), &stroked(Some(vec![12, 20]), 0), 1));
    assert!(!same_style(&stroked(Some(vec![10, 20]), 0), &stroked(Some(vec![10, 20, 30]), 0), 1));
    let mut other = stroked(None, 0);
    other.stroke.as_mut().unwrap().linecap = LineCap::Round;
    assert!(!same_style(&stroked(None, 0), &other, 1000));
    let mut other = stroked(None, 0);
    other.stroke.as_mut().unwrap().linejoin = LineJoin::Bevel;
    assert!(!same_style(&stroked(None, 0), &other, 1000));
    let mut other = stroked(None, 0);
    other.stroke.as_mut().unwrap().miterlimit = 4 * UNIT + 1;
    assert!(!same_style(&stroked(None, 0), &other, 1000));
    let mut other = stroked(None, 0);
    other.stroke.as_mut().unwrap().opacity = 0;
    assert!(!same_style(&stroked(None, 0), &other, 1000));
}

#[test]
fn two_shifted_paths_share_one_definition() {
    let paths = vec![line(0, 0, 10, 10, filled(black())), line(5, 5, 15, 15, filled(black()))];
    let plan = optimize(&paths, 1000);
    assert_eq!(plan.records()[0].state, State::Referred);
    assert_eq!(plan.records()[1].state, State::Referring(0));
    assert_eq!(plan.definitions(), &vec![0]);
    assert_eq!(
        plan.emissions(),
        &vec![
            Emission::Reference { target: 0, dx: 0, dy: 0 },
            Emission::Reference { target: 0, dx: 5 * UNIT, dy: 5 * UNIT }
        ]
    );
    assert_eq!(format_fixed3(5 * UNIT), "5.000");
}

#[test]
fn paths_within_eps_are_duplicates() {
    let mut near = line(5, 5, 15, 15, filled(black()));
    near.segments[1] = PathSegment::LineTo { x: 15 * UNIT + 1000, y: 15 * UNIT - 1000 };
    let paths = vec![line(0, 0, 10, 10, filled(black())), near];
    assert_eq!(states(&paths, 1000), vec![State::Referred, State::Referring(0)]);
}

#[test]
fn paths_farther_than_eps_are_not_duplicates() {
    let mut far = line(5, 5, 15, 15, filled(black()));
    far.segments[1] = PathSegment::LineTo { x: 15 * UNIT + 1001, y: 15 * UNIT };
    let paths = vec![line(0, 0, 10, 10, filled(black())), far];
    assert_eq!(states(&paths, 1000), vec![State::Standalone, State::Standalone]);
}

#[test]
fn paths_with_other_commands_are_not_duplicates() {
    let mut other = line(0, 0, 10, 10, filled(black()));
    other.segments[1] = PathSegment::MoveTo { x: 10 * UNIT, y: 10 * UNIT };
    let mut longer = line(0, 0, 10, 10, filled(black()));
    longer.segments.push(PathSegment::ClosePath);
    let paths = vec![line(0, 0, 10, 10, filled(black())), other, longer];
    assert_eq!(states(&paths, 1000), vec![State::Standalone, State::Standalone, State::Standalone]);
}

#[test]
fn paths_with_different_fill_are_not_duplicates() {
    let red = Paint::Color(Color { red: 255, green: 0, blue: 0 });
    let paths = vec![line(0, 0, 10, 10, filled(black())), line(0, 0, 10, 10, filled(red))];
    assert_eq!(states(&paths, 1000), vec![State::Standalone, State::Standalone]);
}

#[test]
fn a_path_refers_to_the_first_path_it_repeats() {
    let red = || Paint::Color(Color { red: 255, green: 0, blue: 0 });
    let paths = vec![
        line(0, 0, 10, 10, filled(red())),
        line(1, 1, 11, 11, filled(black())),
        line(2, 2, 12, 12, filled(black())),
        line(3, 3, 13, 13, filled(red())),
        line(4, 4, 14, 14, filled(black())),
        line(4, 4, 14, 15, filled(black())),
    ];
    assert_eq!(
        states(&paths, 0),
        vec![
            State::Referred,
            State::Referred,
            State::Referring(1),
            State::Referring(0),
            State::Referring(1),
            State::Standalone
        ]
    );
    let records = classify(&paths, 0);
    assert_eq!(definitions(&records), vec![0, 1]);
    assert_eq!(emission(&records, 5), Emission::Unchanged);
    assert_eq!(emission(&records, 1), Emission::Reference { target: 1, dx: 0, dy: 0 });
    assert_eq!(
        emission(&records, 3),
        Emission::Reference { target: 0, dx: 3 * UNIT, dy: 3 * UNIT }
    );
}

#[test]
fn what_matches_only_a_reference_is_drawn_anew() {
    let mut second = line(0, 0, 10, 10, filled(black()));
    second.segments[1] = PathSegment::LineTo { x: 10 * UNIT + 1000, y: 10 * UNIT };
    let mut third = line(0, 0, 10, 10, filled(black()));
    third.segments[1] = PathSegment::LineTo { x: 10 * UNIT + 2000, y: 10 * UNIT };
    let paths = vec![line(0, 0, 10, 10, filled(black())), second, third];
    assert_eq!(
        states(&paths, 1000),
        vec![State::Referred, State::Referring(0), State::Standalone]
    );
}

#[test]
fn second_run_on_what_was_drawn_shares_nothing() {
    let paths = vec![
        line(0, 0, 10, 10, filled(black())),
        line(1, 1, 11, 11, filled(black())),
        line(0, 0, 7, 7, filled(black())),
        line(3, 3, 10, 10, filled(black())),
        line(0, 0, 1, 1, filled(black())),
    ];
    let first = states(&paths, 1000);
    assert_eq!(
        first,
        vec![
            State::Referred,
            State::Referring(0),
            State::Referred,
            State::Referring(2),
            State::Standalone
        ]
    );
    let mut drawn: Vec<Path> = vec![];
    for wanted in [State::Standalone, State::Referred] {
        for (i, s) in first.iter().enumerate() {
            if *s == wanted {
                drawn.push(Path { segments: paths[i].segments.clone(), style: filled(black()) });
            }
        }
    }
    assert_eq!(drawn.len(), 3);
    assert_eq!(states(&drawn, 1000), vec![State::Standalone, State::Standalone, State::Standalone]);
}

#[test]
fn no_paths_give_an_empty_plan() {
    let plan = optimize(&vec![], 1000);
    assert_eq!(plan.records().len(), 0);
    assert_eq!(plan.emissions().len(), 0);
    assert_eq!(plan.definitions().len(), 0);
}

#[test]
fn numbers_are_written_with_three_decimals() {
    assert_eq!(format_fixed3(0), "0.000");
    assert_eq!(format_fixed3(5_000_000), "5.000");
    assert_eq!(format_fixed3(-5_000_000), "-5.000");
    assert_eq!(format_fixed3(1_234_567), "1.235");
    assert_eq!(format_fixed3(1_234_499), "1.234");
    assert_eq!(format_fixed3(1_234_500), "1.234");
    assert_eq!(format_fixed3(1_235_500), "1.236");
    assert_eq!(format_fixed3(-1_234_501), "-1.235");
    assert_eq!(format_fixed3(999_999), "1.000");
    assert_eq!(format_fixed3(12_345_000_000), "12345.000");
    assert_eq!(format_fixed3(-100), "-0.000");
    assert_eq!(format_fixed3(500), "0.000");
    assert_eq!(format_fixed3(1500), "0.002");
    assert_eq!(format_fixed3(7_050), "0.007");
    assert_eq!(format_fixed3(i64::MAX), "9223372036854.776");
    assert_eq!(format_fixed3(i64::MIN), "-9223372036854.776");
    assert_eq!(format_decimal(0), "0");
    assert_eq!(format_decimal(9), "9");
    assert_eq!(format_decimal(10), "10");
    assert_eq!(format_decimal(1234567890), "1234567890");
    assert_eq!(format_decimal(usize::MAX), usize::MAX.to_string());
}

#[test]
fn path_numbers_are_read_off_ids() {
    assert_eq!(parse_path_id(b"12|glyph"), Some((12, 3)));
    assert_eq!(parse_path_id(b"0|"), Some((0, 2)));
    assert_eq!(parse_path_id(b"007|a|b"), Some((7, 4)));
    assert_eq!(parse_path_id(b"|glyph"), None);
    assert_eq!(parse_path_id(b"12glyph"), None);
    assert_eq!(parse_path_id(b"12"), None);
    assert_eq!(parse_path_id(b""), None);
    assert_eq!(parse_path_id(b"+5|x"), None);
    assert_eq!(parse_path_id(b"1 2|x"), None);
    assert_eq!(parse_path_id(b"x|1|"), None);
    let max = format!("{}|", usize::MAX);
    assert_eq!(parse_path_id(max.as_bytes()), Some((usize::MAX, max.len())));
    let over = format!("{}0|", usize::MAX);
    assert_eq!(parse_path_id(over.as_bytes()), None);
    assert_eq!(parse_path_id(b"18446744073709551616|"), None);
}

fn attribute(key: &str, value: &str) -> Attribute {
    Attribute { key: key.as_bytes().to_vec(), value: value.as_bytes().to_vec() }
}

#[test]
fn tags_are_written_as_they_read() {
    let attrs = vec![attribute("id", "a"), attribute("d", "M0 0")];
    let mut out = b"x".to_vec();
    push_open(&mut out, b"g", &attrs);
    push_empty(&mut out, b"path", &attrs);
    push_empty(&mut out, b"use", &vec![]);
    push_close(&mut out, b"g");
    assert_eq!(
        String::from_utf8(out).unwrap(),
        "x<g id=\"a\" d=\"M0 0\"><path id=\"a\" d=\"M0 0\"/><use/></g>"
    );
    assert_eq!(find_attribute(&attrs, b"d"), Some(1));
    assert_eq!(find_attribute(&attrs, b"x"), None);
    assert!(same_bytes(b"abc", b"abc"));
    assert!(!same_bytes(b"abc", b"abd"));
    assert!(!same_bytes(b"abc", b"ab"));
}

fn two_lines() -> Vec<Path> {
    vec![
        line(0, 0, 10, 10, filled(black())),
        line(5, 5, 15, 15, filled(black())),
        line(0, 0, 3, 3, filled(black())),
    ]
}

#[test]
fn page_is_rewritten_with_shared_definitions() {
    let plan = optimize(&two_lines(), 1000);
    let page = "<?xml version=\"1.0\"?>\n<svg width=\"1\"><g><path id=\"0|\" d=\"M0 0L10 10\"/>\
                <path d=\"M5 5L15 15\" id=\"1|b\"/></g><!-- c --><path id=\"2|c\" d=\"M0 0L3 3\"/>\
                <rect id=\"r\"/>text</svg>\n";
    let out = rewrite(page.as_bytes(), &plan).unwrap();
    let expected = "<?xml version=\"1.0\"?>\n<svg width=\"1\"><g>\
                    <use x=\"0.000\" y=\"0.000\" href=\"#\u{2c7c}\u{2097}0\"/>\
                    <use x=\"5.000\" y=\"5.000\" href=\"#\u{2c7c}\u{2097}0\"/></g><!-- c -->\
                    <path id=\"c\" d=\"M0 0L3 3\"/><rect id=\"r\"/>text\
                    <defs><g id=\"\u{2c7c}\u{2097}0\"><path id=\"\" d=\"M0 0L10 10\"/></g></defs></svg>\n";
    assert_eq!(String::from_utf8(out).unwrap(), expected);
}

#[test]
fn page_without_paths_gets_an_empty_block() {
    let plan = optimize(&vec![], 1000);
    let out = rewrite(b"<svg><g/></svg>", &plan).unwrap();
    assert_eq!(String::from_utf8(out).unwrap(), "<svg><g/><defs></defs></svg>");
    let out = rewrite(b"no markup at all", &plan).unwrap();
    assert_eq!(String::from_utf8(out).unwrap(), "no markup at all");
    let out = rewrite(b"", &plan).unwrap();
    assert_eq!(out.len(), 0);
}

#[test]
fn page_with_a_nameless_document_type_is_refused() {
    let plan = optimize(&vec![], 1000);
    for page in [
        "<!DOCTYPE>",
        "<!doctype>",
        "<!DocType \r\n\t >",
        "<svg><!DOCTYPE ></svg>",
        "<?xml version=\"1.0\"?>\n<!DOCTYPE\n><svg/>",
        "<!-- <!DOCTYPE> -->",
    ] {
        assert!(declares_nameless_doctype(page.as_bytes()), "{}", page);
        assert!(matches!(rewrite(page.as_bytes(), &plan), Err(RewriteError::NamelessDoctype)));
    }
    for page in ["", "<!DOCTYPE", "<!DOCTYPE svg>", "<!DOCTYPE  x >", "<!DOCTYP>", "!DOCTYPE>", "<!DOCTYPE \u{b}>"] {
        assert!(!declares_nameless_doctype(page.as_bytes()), "{}", page);
    }
    let out = rewrite(b"<!DOCTYPE svg><svg></svg>", &plan).unwrap();
    assert_eq!(String::from_utf8(out).unwrap(), "<!DOCTYPE svg><svg><defs></defs></svg>");
    assert!(matches!(rewrite(b"<svg><!DOCTYPE", &plan), Err(RewriteError::Malformed(_))));
}

#[test]
fn shared_definitions_are_written_once_for_a_page() {
    let plan = optimize(&two_lines(), 1000);
    let page = "<svg><svg><path id=\"0|a\"/></svg><g><path id=\"1|b\"/></g></svg>";
    let out = rewrite(page.as_bytes(), &plan).unwrap();
    let expected = "<svg><svg><use x=\"0.000\" y=\"0.000\" href=\"#\u{2c7c}\u{2097}0\"/></svg>\
                    <g><use x=\"5.000\" y=\"5.000\" href=\"#\u{2c7c}\u{2097}0\"/></g>\
                    <defs><g id=\"\u{2c7c}\u{2097}0\"><path id=\"a\"/></g></defs></svg>";
    assert_eq!(String::from_utf8(out).unwrap(), expected);
}

#[test]
fn events_are_rewritten_one_by_one() {
    let plan = optimize(&two_lines(), 1000);
    let mut out = b"x".to_vec();
    let mut defs: Vec<Definition> = vec![];
    let mut depth = 0usize;
    let svg = || Tag::Start(b"svg".to_vec());
    let end = || Tag::End(b"svg".to_vec());
    rewrite_event(&plan, &svg(), vec![], b"<svg>", &mut out, &mut defs, &mut depth).unwrap();
    rewrite_event(&plan, &svg(), vec![], b"<svg a=\"1\">", &mut out, &mut defs, &mut depth).unwrap();
    assert_eq!(depth, 2);
    let attrs = vec![Attribute { key: b"id".to_vec(), value: b"0|first".to_vec() }];
    rewrite_event(&plan, &Tag::Empty(b"path".to_vec()), attrs, b"ignored", &mut out, &mut defs, &mut depth)
        .unwrap();
    assert_eq!(defs.len(), 1);
    assert_eq!(defs[0].number, 0);
    assert_eq!(defs[0].attrs, vec![Attribute { key: b"id".to_vec(), value: b"first".to_vec() }]);
    rewrite_event(&plan, &end(), vec![], b"</svg>", &mut out, &mut defs, &mut depth).unwrap();
    assert_eq!((depth, defs.len()), (1, 1));
    rewrite_event(&plan, &Tag::Other, vec![], b" text ", &mut out, &mut defs, &mut depth).unwrap();
    rewrite_event(&plan, &Tag::Start(b"path".to_vec()), vec![], b"<path>", &mut out, &mut defs, &mut depth)
        .unwrap();
    let before = out.clone();
    let bad = vec![Attribute { key: b"id".to_vec(), value: b"9|x".to_vec() }];
    let refused =
        rewrite_event(&plan, &Tag::Empty(b"path".to_vec()), bad, b"", &mut out, &mut defs, &mut depth);
    assert!(matches!(refused, Err(RewriteError::UnknownPath(9))));
    assert_eq!(out, before);
    assert_eq!((depth, defs.len()), (1, 1));
    rewrite_event(&plan, &end(), vec![], b"</svg>", &mut out, &mut defs, &mut depth).unwrap();
    assert_eq!((depth, defs.len()), (0, 0));
    rewrite_event(&plan, &end(), vec![], b"</svg>", &mut out, &mut defs, &mut depth).unwrap();
    rewrite_event(&plan, &Tag::Eof, vec![], b"", &mut out, &mut defs, &mut depth).unwrap();
    assert_eq!(
        String::from_utf8(out).unwrap(),
        "x<svg><svg a=\"1\"><use x=\"0.000\" y=\"0.000\" href=\"#\u{2c7c}\u{2097}0\"/></svg> text <path>\
         <defs><g id=\"\u{2c7c}\u{2097}0\"><path id=\"first\"/></g></defs></svg><defs></defs></svg>"
    );
}

#[test]
fn readings_are_taken_in_with_their_places() {
    let plan = optimize(&two_lines(), 1000);
    let page = b"<svg><path id=\"0|a\"/>rest";
    let unreadable = || Err(quick_xml::Error::UnexpectedEof("attribute".to_string()));
    let path = Tag::Empty(b"path".to_vec());
    let mut out = b"<svg>".to_vec();
    let mut defs: Vec<Definition> = vec![];
    let mut depth = 1usize;
    assert_eq!(page.len(), 25);
    let lost = rewrite_reading(&plan, page, 5, 4, &Tag::Other, Ok(vec![]), &mut out, &mut defs, &mut depth);
    assert!(matches!(lost, Err(RewriteError::LostPosition)));
    let lost = rewrite_reading(&plan, page, 5, 26, &Tag::Other, Ok(vec![]), &mut out, &mut defs, &mut depth);
    assert!(matches!(lost, Err(RewriteError::LostPosition)));
    let lost = rewrite_reading(&plan, page, 5, 21, &Tag::Eof, Ok(vec![]), &mut out, &mut defs, &mut depth);
    assert!(matches!(lost, Err(RewriteError::LostPosition)));
    let bad = rewrite_reading(&plan, page, 5, 21, &path, unreadable(), &mut out, &mut defs, &mut depth);
    assert!(matches!(bad, Err(RewriteError::Malformed(_))));
    assert_eq!(out, b"<svg>".to_vec());
    let attrs = vec![Attribute { key: b"id".to_vec(), value: b"0|a".to_vec() }];
    let more = rewrite_reading(&plan, page, 5, 21, &path, Ok(attrs), &mut out, &mut defs, &mut depth);
    assert!(matches!(more, Ok(false)));
    let more = rewrite_reading(&plan, page, 21, 21, &Tag::Other, unreadable(), &mut out, &mut defs, &mut depth);
    assert!(matches!(more, Ok(false)));
    let done = rewrite_reading(&plan, page, 21, 25, &Tag::Eof, unreadable(), &mut out, &mut defs, &mut depth);
    assert!(matches!(done, Ok(true)));
    assert_eq!(
        String::from_utf8(out).unwrap(),
        "<svg><use x=\"0.000\" y=\"0.000\" href=\"#\u{2c7c}\u{2097}0\"/>rest"
    );
    assert_eq!((defs.len(), depth), (1, 1));
}

#[test]
fn numbers_put_before_ids_are_read_back() {
    assert_eq!(numbered_id(12, b"glyph"), b"12|glyph".to_vec());
    assert_eq!(numbered_id(0, b""), b"0|".to_vec());
    assert_eq!(numbered_id(7, b"3|x"), b"7|3|x".to_vec());
    assert_eq!(numbered_id(1000, b"|"), b"1000||".to_vec());
    for (number, id) in [(0usize, "a"), (9, ""), (10, "b|c"), (4711, "12"), (usize::MAX, "z")] {
        let whole = numbered_id(number, id.as_bytes());
        let (read, rest) = parse_path_id(&whole).unwrap();
        assert_eq!(read, number);
        assert_eq!(&whole[rest..], id.as_bytes());
    }
}

#[test]
fn page_with_unusable_paths_is_refused() {
    let plan = optimize(&two_lines(), 1000);
    assert!(matches!(
        rewrite(b"<svg><path d=\"M0 0\"/></svg>", &plan),
        Err(RewriteError::PathWithoutId)
    ));
    assert!(matches!(
        rewrite(b"<svg><path id=\"glyph\"/></svg>", &plan),
        Err(RewriteError::PathNotNumbered)
    ));
    assert!(matches!(
        rewrite(b"<svg><path id=\"3|glyph\"/></svg>", &plan),
        Err(RewriteError::UnknownPath(3))
    ));
    assert!(matches!(
        rewrite(b"<svg><path id=\"1|a\" id=\"2|b\"/></svg>", &plan),
        Err(RewriteError::Malformed(_))
    ));
    assert!(matches!(rewrite(b"<svg></g>", &plan), Err(RewriteError::Malformed(_))));
}

#[test]
fn paths_are_checked() {
    assert!(line(0, 0, 1, 1, filled(black())).is_wf());
    let nowhere = Path { segments: vec![PathSegment::ClosePath], style: filled(black()) };
    assert!(!nowhere.is_wf());
    assert!(!Path { segments: vec![], style: filled(black()) }.is_wf());
    let far = Path {
        segments: vec![PathSegment::MoveTo { x: 0, y: 0 }, PathSegment::LineTo { x: i64::MAX, y: 0 }],
        style: filled(black()),
    };
    assert!(!far.is_wf());
}
