use justlatex::fragment::FragmentType;
use justlatex::markup::{format_points, fragment_markup};
use justlatex::region::PositionedImage;
use justlatex::units::UNITS_PER_BP;

fn image(page: u32) -> PositionedImage {
    PositionedImage {
        page,
        x: UNITS_PER_BP,
        y: -2 * UNITS_PER_BP - UNITS_PER_BP / 2,
        width: 10 * UNITS_PER_BP + UNITS_PER_BP / 4,
        height: 3 * UNITS_PER_BP,
        baseline_offset: UNITS_PER_BP / 2,
    }
}

fn classes() -> Vec<String> {
    vec!["jl-one".to_string(), "jl-two".to_string()]
}

#[test]
fn lengths_are_written_in_points() {
    assert_eq!(format_points(0), "0.00");
    assert_eq!(format_points(UNITS_PER_BP), "1.00");
    assert_eq!(format_points(-UNITS_PER_BP), "-1.00");
    assert_eq!(format_points(UNITS_PER_BP / 2), "0.50");
    assert_eq!(format_points(UNITS_PER_BP / 8), "0.12");
    assert_eq!(format_points(3 * UNITS_PER_BP / 8), "0.38");
    assert_eq!(format_points(UNITS_PER_BP / 200), "0.00");
    assert_eq!(format_points(UNITS_PER_BP / 200 + 1), "0.01");
    assert_eq!(format_points(3 * UNITS_PER_BP / 200), "0.01");
    assert_eq!(format_points(3 * UNITS_PER_BP / 200 + 1), "0.02");
    assert_eq!(format_points(-1), "-0.00");
    assert_eq!(format_points(1234 * UNITS_PER_BP + 56 * (UNITS_PER_BP / 100)), "1234.56");
    assert_eq!(format_points(UNITS_PER_BP - 1), "1.00");
    assert_eq!(format_points(i64::MAX), "175264618126.19");
    assert_eq!(format_points(i64::MIN), "-175264618126.19");
}

#[test]
fn inline_markup_is_one_image() {
    let markup =
        fragment_markup(FragmentType::InlineMath, &vec![image(2)], &classes(), "a<b & c>d", UNITS_PER_BP)
            .unwrap();
    assert_eq!(
        markup,
        "<img src=\"#svgView(viewBox(1.00,-2.50,10.25,3.00))\"\n\
         class=\"jl-two\" alt = \"a&lt;b &amp; c&gt;d\"\n\
         style=\"width:10.25pt;height:3.00pt;\n\
         top:-0.50pt;position:relative;display:inline;margin-bottom:0pt;\">"
    );
}

#[test]
fn display_markup_is_a_centred_paragraph() {
    let markup =
        fragment_markup(FragmentType::DisplayMath, &vec![image(1), image(2)], &classes(), "x", 0).unwrap();
    let one = |class: &str| {
        format!(
            "<img src=\"#svgView(viewBox(1.00,-2.50,10.25,3.00))\"\nclass=\"{}\" alt = \"x\"\n\
             style=\"width:10.25pt;height:3.00pt;\ntop:0.50pt;position:relative;display:inline;margin-bottom:0pt;\">",
            class
        )
    };
    assert_eq!(
        markup,
        format!("<p style=\"text-align:center;\">{}<br>{}</p>", one("jl-one"), one("jl-two"))
    );
    assert_eq!(
        fragment_markup(FragmentType::RawBlock, &vec![], &classes(), "x", 0).unwrap(),
        "<p style=\"text-align:center;\"></p>"
    );
    assert_eq!(fragment_markup(FragmentType::InlineMath, &vec![], &classes(), "x", 0).unwrap(), "");
}

#[test]
fn fragment_that_is_not_shown_has_no_markup() {
    assert_eq!(fragment_markup(FragmentType::DontShow, &vec![image(9)], &classes(), "x", 0).unwrap(), "");
}

#[test]
fn image_on_a_page_without_class_has_no_markup() {
    assert_eq!(fragment_markup(FragmentType::InlineMath, &vec![image(3)], &classes(), "x", 0), None);
    assert_eq!(fragment_markup(FragmentType::DisplayMath, &vec![image(1), image(0)], &classes(), "x", 0), None);
}
