use justlatex::config::{Config, ConfigurationError, OptimizerConfig, TemplateConfig};
use justlatex::fragment::{
    math_fragment_type, raw_block_fragment_type, FragmentNodeRef, FragmentRenderer, FragmentType,
    RenderFailure,
};
use justlatex::region::{PositionResolutionFailure, PositionedImage};
use justlatex::svg::{BoundingBox, PageGeometry};
use justlatex::synctex::{IndexEntry, Scanner, TeXBox};
use justlatex::text::{count_line_feeds, count_lines, has_prefix, push_bytes, str_equal};

fn config() -> Config {
    Config {
        preamble: "\\documentclass{article}\n\\begin{document}\n\n  ".to_string(),
        postamble: "\\end{document}".to_string(),
        latex: "pdflatex".to_string(),
        dvisvgm: "dvisvgm".to_string(),
        mode: "pdf".to_string(),
        y_range_tol: 0,
        x_range_margin: 100,
        y_range_margin: 200,
        baseline_rise: 0,
        lzma_js_path: String::new(),
        script_extra_attributes: String::new(),
        extra_style_inline: String::new(),
        extra_style_display: String::new(),
        template: TemplateConfig {
            placeholder: "{{fragment}}".to_string(),
            inline_math: "\\({{fragment}}\\)".to_string(),
            inline_math_inner: "{{fragment}}".to_string(),
            strong: "{{fragment}}".to_string(),
            emph: "{{fragment}}".to_string(),
            quote: "{{fragment}}".to_string(),
            header: vec![],
            display_math: "\\[\n    {{fragment}}\n\\]".to_string(),
        },
        optimizer: OptimizerConfig { enabled: true, eps: 1000 },
        output_folder: None,
    }
}

#[test]
fn configuration_is_checked_in_order() {
    assert_eq!(config().sanity_check(), Ok(()));
    let mut c = config();
    c.mode = "ps".to_string();
    c.y_range_tol = -1;
    assert_eq!(c.sanity_check(), Err(ConfigurationError::UnknownMode));
    c.mode = "dvi".to_string();
    assert_eq!(c.sanity_check(), Err(ConfigurationError::OptimizerNeedsPdf));
    c.mode = "xdv".to_string();
    assert_eq!(c.sanity_check(), Err(ConfigurationError::OptimizerNeedsPdf));
    c.optimizer.enabled = false;
    assert_eq!(c.sanity_check(), Err(ConfigurationError::InvalidTolerance));
    c.y_range_tol = 0;
    c.y_range_margin = i64::MAX;
    c.optimizer.eps = -1;
    assert_eq!(c.sanity_check(), Err(ConfigurationError::InvalidMargin));
    c.y_range_margin = 0;
    c.x_range_margin = -1;
    assert_eq!(c.sanity_check(), Err(ConfigurationError::InvalidMargin));
    c.x_range_margin = 0;
    c.template.placeholder = String::new();
    assert_eq!(c.sanity_check(), Err(ConfigurationError::InvalidEps));
    c.optimizer.eps = 0;
    assert_eq!(c.sanity_check(), Ok(()));
    let tol = c.tolerances();
    assert_eq!((tol.y_range_tol, tol.x_range_margin, tol.y_range_margin), (0, 0, 0));
}

#[test]
fn math_nodes_are_classified() {
    assert_eq!(math_fragment_type("InlineMath", "x"), Some(FragmentType::InlineMath));
    assert_eq!(math_fragment_type("InlineMath", "%raw x"), Some(FragmentType::InlineMath));
    assert_eq!(math_fragment_type("DisplayMath", "x"), Some(FragmentType::DisplayMath));
    assert_eq!(math_fragment_type("DisplayMath", " \n\t%raw\nx"), Some(FragmentType::RawBlock));
    assert_eq!(math_fragment_type("DisplayMath", "\u{a0}%dontshow"), Some(FragmentType::DontShow));
    assert_eq!(math_fragment_type("DisplayMath", "x %raw"), Some(FragmentType::DisplayMath));
    assert_eq!(math_fragment_type("DisplayMath", "%ra"), Some(FragmentType::DisplayMath));
    assert_eq!(math_fragment_type("displaymath", "x"), None);
    assert_eq!(math_fragment_type("", "x"), None);
}

#[test]
fn raw_blocks_are_classified() {
    assert_eq!(raw_block_fragment_type("tex", "\\newcommand"), Some(FragmentType::RawBlock));
    assert_eq!(raw_block_fragment_type("tex", "  %dontshow\n\\def"), Some(FragmentType::DontShow));
    assert_eq!(raw_block_fragment_type("tex", "%raw"), Some(FragmentType::RawBlock));
    assert_eq!(raw_block_fragment_type("html", "%dontshow"), None);
    assert_eq!(raw_block_fragment_type("latex", "x"), None);
}

#[test]
fn text_helpers() {
    assert!(has_prefix("%raw", "%raw"));
    assert!(has_prefix("%rawer", "%raw"));
    assert!(has_prefix("x", ""));
    assert!(!has_prefix("%ra", "%raw"));
    assert!(!has_prefix("a%raw", "%raw"));
    assert!(has_prefix("\u{e9}t\u{e9}", "\u{e9}t"));
    assert!(str_equal("a", "a"));
    assert!(!str_equal("a", "b"));
    assert!(!str_equal("a", "ab"));
    assert_eq!(count_line_feeds(b""), 0);
    assert_eq!(count_line_feeds(b"a\nb"), 1);
    assert_eq!(count_line_feeds(b"\n\r\n"), 2);
    assert_eq!(count_lines(b""), 0);
    assert_eq!(count_lines(b"a"), 1);
    assert_eq!(count_lines(b"a\n"), 1);
    assert_eq!(count_lines(b"a\nb"), 2);
    assert_eq!(count_lines(b"\n"), 1);
    assert_eq!(count_lines(b"\n\n"), 2);
    assert_eq!(count_lines(b"a\r\nb\r\n"), 2);
    assert_eq!(count_lines(b"a\rb"), 1);
    for text in ["", "a", "a\n", "\n\nx", "a\r\nb\r\n\r\n", "x\ny\nz", "\r"] {
        assert_eq!(count_lines(text.as_bytes()), text.lines().count());
    }
    let mut out = b"ab".to_vec();
    push_bytes(&mut out, b"cd");
    assert_eq!(out, b"abcd".to_vec());
}

#[test]
fn inline_fragments_with_the_same_source_are_typeset_once() {
    let mut r = FragmentRenderer::new(config());
    r.add_fragment(FragmentType::InlineMath, " x+1 ", FragmentNodeRef::Inline(0));
    r.add_fragment(FragmentType::DisplayMath, "x+1", FragmentNodeRef::Inline(1));
    r.add_fragment(FragmentType::InlineMath, "y", FragmentNodeRef::Inline(2));
    r.add_fragment(FragmentType::InlineMath, "x+1\n", FragmentNodeRef::Inline(3));
    r.add_fragment(FragmentType::DisplayMath, "x+1", FragmentNodeRef::Inline(4));
    r.add_fragment(FragmentType::RawBlock, "\u{2003}x+1", FragmentNodeRef::Block(5));
    r.add_fragment(FragmentType::InlineMath, "x + 1", FragmentNodeRef::Inline(6));
    assert_eq!(r.fragments.len(), 6);
    assert_eq!(r.fragments[0].ty, FragmentType::InlineMath);
    assert_eq!(r.fragments[0].src, "x+1");
    assert_eq!(r.fragments[0].refs, vec![FragmentNodeRef::Inline(0), FragmentNodeRef::Inline(3)]);
    assert_eq!(r.fragments[1].refs, vec![FragmentNodeRef::Inline(1)]);
    assert_eq!(r.fragments[2].src, "y");
    assert_eq!(r.fragments[3].ty, FragmentType::DisplayMath);
    assert_eq!(r.fragments[3].refs, vec![FragmentNodeRef::Inline(4)]);
    assert_eq!(r.fragments[4].src, "x+1");
    assert_eq!(r.fragments[4].refs, vec![FragmentNodeRef::Block(5)]);
    assert_eq!(r.fragments[5].src, "x + 1");
}

#[test]
fn source_text_and_line_ranges() {
    let mut r = FragmentRenderer::new(config());
    r.add_fragment(FragmentType::InlineMath, "x+1", FragmentNodeRef::Inline(0));
    r.add_fragment(FragmentType::DisplayMath, "a\n= b", FragmentNodeRef::Inline(1));
    r.add_fragment(FragmentType::DontShow, "%dontshow\n\\def\\x{1}", FragmentNodeRef::Block(2));
    r.add_fragment(FragmentType::RawBlock, "%raw\nz", FragmentNodeRef::Inline(3));
    let (source, lines) = r.generate_latex_with_line_mappings();
    let expected = "\\documentclass{article}\n\\begin{document}\n\
                    \\(x+1\\)\n\n\
                    \\[\n    a\n= b\n\\]\n\n\
                    %dontshow\n\\def\\x{1}\n\n\
                    %raw\nz\n\n\
                    \\end{document}";
    assert_eq!(String::from_utf8(source).unwrap(), expected);
    assert_eq!(lines, vec![3..4, 5..9, 10..12, 13..15]);
}

#[test]
fn source_text_without_fragments() {
    let r = FragmentRenderer::new(config());
    let (source, lines) = r.generate_latex_with_line_mappings();
    assert_eq!(
        String::from_utf8(source).unwrap(),
        "\\documentclass{article}\n\\begin{document}\n\\end{document}"
    );
    assert_eq!(lines.len(), 0);
}

#[test]
fn placeholder_is_replaced_everywhere() {
    let mut c = config();
    c.preamble = String::new();
    c.postamble = String::new();
    c.template.placeholder = "@".to_string();
    c.template.inline_math = "$@$ and @@ \n\n".to_string();
    let mut r = FragmentRenderer::new(c);
    r.add_fragment(FragmentType::InlineMath, "a@b", FragmentNodeRef::Inline(0));
    let (source, lines) = r.generate_latex_with_line_mappings();
    assert_eq!(String::from_utf8(source).unwrap(), "\n$a@b$ and a@ba@b\n\n");
    assert_eq!(lines, vec![2..3]);
}

fn lines_of(source: &[u8], range: std::ops::Range<usize>) -> Vec<String> {
    let text = String::from_utf8(source.to_vec()).unwrap();
    text.split('\n').skip(range.start - 1).take(range.end - range.start).map(String::from).collect()
}

#[test]
fn line_ranges_name_the_lines_that_were_written() {
    for preamble in ["", " \n\t", "\\begin{document}", "a\nb\n\nc\n\n"] {
        let mut c = config();
        c.preamble = preamble.to_string();
        let mut r = FragmentRenderer::new(c);
        r.add_fragment(FragmentType::InlineMath, "x+1", FragmentNodeRef::Inline(0));
        r.add_fragment(FragmentType::RawBlock, "", FragmentNodeRef::Block(1));
        r.add_fragment(FragmentType::DisplayMath, "a\n= b", FragmentNodeRef::Inline(2));
        r.add_fragment(FragmentType::RawBlock, "%raw\nz", FragmentNodeRef::Block(3));
        let (source, lines) = r.generate_latex_with_line_mappings();
        assert_eq!(lines.len(), 4);
        assert_eq!(lines_of(&source, lines[0].clone()), vec!["\\(x+1\\)"]);
        assert_eq!(lines[1].start, lines[1].end);
        assert_eq!(lines_of(&source, lines[2].clone()), vec!["\\[", "    a", "= b", "\\]"]);
        assert_eq!(lines_of(&source, lines[3].clone()), vec!["%raw", "z"]);
    }
}

#[test]
fn an_empty_placeholder_is_no_fault() {
    let mut c = config();
    c.preamble = "p".to_string();
    c.postamble = String::new();
    c.template.placeholder = String::new();
    c.template.inline_math = "ab".to_string();
    assert_eq!(c.sanity_check(), Ok(()));
    let mut r = FragmentRenderer::new(c);
    r.add_fragment(FragmentType::InlineMath, "-", FragmentNodeRef::Inline(0));
    let (source, lines) = r.generate_latex_with_line_mappings();
    assert_eq!(String::from_utf8(source).unwrap(), "p\n-a-b-\n\n");
    assert_eq!(lines, vec![2..3]);
}

fn entry(line: usize, h: i32, v: i32, width: i32, page: u32) -> IndexEntry {
    IndexEntry { line, tex_box: TeXBox { h, v, height: 10, width, depth: 2, page } }
}

#[test]
fn every_fragment_is_placed() {
    let mut r = FragmentRenderer::new(config());
    r.add_fragment(FragmentType::InlineMath, "x+1", FragmentNodeRef::Inline(0));
    r.add_fragment(FragmentType::DontShow, "%dontshow", FragmentNodeRef::Block(1));
    r.add_fragment(FragmentType::DisplayMath, "a\n= b", FragmentNodeRef::Inline(2));
    let (_, lines) = r.generate_latex_with_line_mappings();
    assert_eq!(lines, vec![3..4, 5..6, 7..11]);
    let scanner = Scanner::new(vec![
        entry(3, 100, 200, 50, 1),
        entry(5, 0, 0, 1000, 1),
        entry(8, 100, 200, 50, 1),
        entry(8, 10, 500, 70, 1),
        entry(10, 10, 600, 5, 2),
    ]);
    let pages = vec![
        PageGeometry { top: 0, bboxes: vec![] },
        PageGeometry {
            top: 1000,
            bboxes: vec![BoundingBox { left: 7000, top: 473_000, right: 9000, bottom: 474_000 }],
        },
    ];
    let images = r.render_with_latex(&scanner, &pages).unwrap();
    assert_eq!(images.len(), 3);
    assert_eq!(
        images[0],
        vec![PositionedImage {
            page: 1,
            x: 80_000 - 100,
            y: 152_000,
            width: 40_000 + 200,
            height: 9_600,
            baseline_offset: 1_600
        }]
    );
    assert_eq!(images[1], vec![]);
    assert_eq!(
        images[2],
        vec![
            PositionedImage {
                page: 1,
                x: 8_000 - 100,
                y: 392_000 - 200,
                width: 56_000 + 200,
                height: 9_600 + 400,
                baseline_offset: 0
            },
            PositionedImage {
                page: 2,
                x: 7000 - 100,
                y: 473_000 - 200,
                width: 2000 + 200,
                height: 1000 + 400,
                baseline_offset: 0
            }
        ]
    );
}

#[test]
fn first_fragment_that_cannot_be_placed_ends_the_render() {
    let mut r = FragmentRenderer::new(config());
    r.add_fragment(FragmentType::InlineMath, "x+1", FragmentNodeRef::Inline(0));
    r.add_fragment(FragmentType::InlineMath, "y", FragmentNodeRef::Inline(1));
    r.add_fragment(FragmentType::InlineMath, "z", FragmentNodeRef::Inline(2));
    let scanner = Scanner::new(vec![entry(3, 100, 200, 50, 1), entry(5, 100, 200, 50, 1)]);
    let pages = vec![PageGeometry { top: 0, bboxes: vec![] }];
    assert_eq!(
        r.render_with_latex(&scanner, &pages),
        Err(RenderFailure { fragment: 1, failure: PositionResolutionFailure::NoBoxes })
    );
    let scanner = Scanner::new(vec![
        entry(3, 100, 200, 50, 1),
        entry(5, 1, 2, 50, 1),
        entry(7, 1, 2, 3, 1),
        entry(7, 1, 2, 3, 2),
    ]);
    let pages = vec![PageGeometry { top: 0, bboxes: vec![] }, PageGeometry { top: 0, bboxes: vec![] }];
    assert_eq!(
        r.render_with_latex(&scanner, &pages),
        Err(RenderFailure { fragment: 2, failure: PositionResolutionFailure::SpansPages(vec![1, 2]) })
    );
}

#[test]
fn default_configuration_can_be_rendered_with() {
    let c = Config::default();
    assert_eq!(c.sanity_check(), Ok(()));
    assert_eq!(c.mode, "pdf");
    assert_eq!(c.latex, "pdflatex");
    assert_eq!(c.dvisvgm, "dvisvgm");
    assert!(c.preamble.starts_with("\\documentclass[12pt, fleqn]{article}\n"));
    assert!(c.preamble.ends_with("\n\\begin{document}"));
    assert_eq!(c.preamble.lines().count(), 5);
    assert_eq!(c.postamble, "\\end{document}");
    assert_eq!((c.y_range_tol, c.x_range_margin, c.y_range_margin, c.baseline_rise), (0, 52_625_408, 52_625_408, 0));
    assert_eq!(c.optimizer, OptimizerConfig { enabled: false, eps: 1000 });
    assert_eq!(c.output_folder, None);
    assert_eq!(c.template.placeholder, "{{fragment}}");
    assert_eq!(c.template.inline_math, "\\({{fragment}}\\)");
    assert_eq!(c.template.display_math, "\\[\n    {{fragment}}\n\\]");
    assert_eq!(c.template.header.len(), 6);
    assert_eq!(c.template.header[2], "\\text{\\fontsize{14.04pt}{0}\\selectfont${{fragment}}$}");
    assert_eq!(c.template, TemplateConfig::default());
    let mut r = FragmentRenderer::new(c);
    r.add_fragment(FragmentType::DisplayMath, "x", FragmentNodeRef::Inline(0));
    let (source, lines) = r.generate_latex_with_line_mappings();
    assert!(String::from_utf8(source).unwrap().ends_with("\\begin{document}\n\\[\n    x\n\\]\n\n\\end{document}"));
    assert_eq!(lines, vec![6..9]);
}

#[test]
fn configuration_errors_are_said_in_words() {
    assert_eq!(ConfigurationError::UnknownMode.message(), "unknown mode: must be one of 'pdf', 'dvi', or 'xdv'");
    assert_eq!(
        ConfigurationError::OptimizerNeedsPdf.message(),
        "DVI/XDV mode is incompatible with JustLaTeX's SVG optimizer"
    );
    assert!(ConfigurationError::InvalidTolerance.message().starts_with("y_range_tol "));
    assert!(ConfigurationError::InvalidMargin.message().starts_with("margins "));
    assert!(ConfigurationError::InvalidEps.message().starts_with("optimizer.eps "));
}

#[test]
fn white_space_of_every_kind_is_trimmed() {
    let spaces = [
        '\t', '\n', '\u{b}', '\u{c}', '\r', ' ', '\u{85}', '\u{a0}', '\u{1680}', '\u{2000}', '\u{2005}',
        '\u{200a}', '\u{2028}', '\u{2029}', '\u{202f}', '\u{205f}', '\u{3000}',
    ];
    for space in spaces {
        let mut r = FragmentRenderer::new(config());
        r.add_fragment(FragmentType::DisplayMath, &format!("{}x y{}", space, space), FragmentNodeRef::Inline(0));
        assert_eq!(r.fragments[0].src, "x y");
    }
    for other in ['\u{8}', '\u{e}', '\u{1f}', '\u{200b}', '\u{2060}', '\u{feff}', '\u{180e}', 'x'] {
        let mut r = FragmentRenderer::new(config());
        let text = format!("{}x y{}", other, other);
        r.add_fragment(FragmentType::DisplayMath, &text, FragmentNodeRef::Inline(0));
        assert_eq!(r.fragments[0].src, text);
    }
}
