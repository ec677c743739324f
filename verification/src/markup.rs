//! The markup that stands for a fragment in the document: one image per
//! page, each a view into the rendered page.

use vstd::prelude::*;
use vstd::string::StringExecFns;
use crate::fragment::FragmentType;
use crate::region::PositionedImage;
use crate::text::{decimal, digit, push_decimal, push_digit};
use crate::units::UNITS_PER_BP;

verus! {

/// A character as it stands in the text of a document: `&`, `<` and `>`
/// are written as entities.
pub open spec fn escaped_char(c: char) -> Seq<char> {
    if c == '&' {
        "&amp;"@
    } else if c == '<' {
        "&lt;"@
    } else if c == '>' {
        "&gt;"@
    } else {
        seq![c]
    }
}

/// A text with every `&`, `<` and `>` written as an entity.
pub open spec fn escaped(text: Seq<char>) -> Seq<char>
    decreases text.len(),
{
    if text.len() == 0 {
        Seq::empty()
    } else {
        escaped(text.drop_last()) + escaped_char(text.last())
    }
}

/// `encode_text` of the crate `html_escape`: the text with every `&`
/// written as `&amp;`, every `<` as `&lt;` and every `>` as `&gt;`, and
/// every other character as it is.
#[verifier::external_body]
pub(crate) fn escape_text(text: &str) -> (out: String)
    ensures
        out@ == escaped(text@),
{
    html_escape::encode_text(text).into_owned()
}

/// The whole number of hundredths of a point nearest to `units` output
/// units; a value halfway between two goes to the even one.
pub open spec fn rounded_hundredths(units: nat) -> nat {
    let whole = units * 100 / (UNITS_PER_BP as nat);
    let rest = units * 100 % (UNITS_PER_BP as nat);
    if 2 * rest > UNITS_PER_BP || (2 * rest == UNITS_PER_BP && whole % 2 == 1) {
        whole + 1
    } else {
        whole
    }
}

/// A length given in output units, written in points with two decimals: an
/// optional minus sign, the whole part, a point and two digits. A negative
/// length keeps its sign even where it rounds to zero.
pub open spec fn points_text(units: int) -> Seq<char> {
    let magnitude = (if units < 0 { -units } else { units }) as nat;
    let h = rounded_hundredths(magnitude);
    let sign = if units < 0 { seq!['-'] } else { Seq::<char>::empty() };
    sign + decimal(h / 100) + seq!['.', digit(((h / 10) % 10) as int), digit((h % 10) as int)]
}

/// Appends a length in points with two decimals.
fn push_points(text: &mut String, units: i128)
    requires
        -0x1_0000_0000_0000_0000 <= units <= 0x1_0000_0000_0000_0000,
    ensures
        final(text)@ == old(text)@ + points_text(units as int),
{
    let magnitude: u128 = if units < 0 { (-units) as u128 } else { units as u128 };
    let scale: u128 = UNITS_PER_BP as u128;
    let whole: u128 = magnitude * 100 / scale;
    let rest: u128 = magnitude * 100 % scale;
    let h: u128 = if 2 * rest > scale || (2 * rest == scale && whole % 2 == 1) {
        whole + 1
    } else {
        whole
    };
    assert(h == rounded_hundredths(magnitude as nat));
    let ghost before = text@;
    if units < 0 {
        proof {
            reveal_strlit("-");
        }
        text.append("-");
    }
    let ghost sign = if units < 0 { seq!['-'] } else { Seq::<char>::empty() };
    assert(text@ =~= before + sign);
    push_decimal(text, h / 100);
    proof {
        reveal_strlit(".");
    }
    text.append(".");
    push_digit(text, ((h / 10) % 10) as u8);
    push_digit(text, (h % 10) as u8);
    assert(text@ =~= before + points_text(units as int));
}

/// Writes a length given in output units in points with two decimals.
pub fn format_points(units: i64) -> (text: String)
    ensures
        text@ == points_text(units as int),
{
    let mut text = String::new();
    push_points(&mut text, units as i128);
    assert(text@ =~= points_text(units as int));
    text
}

/// The start of the markup of an image: the view into the rendered page.
pub open spec fn view_text(image: PositionedImage) -> Seq<char> {
    "<img src=\"#svgView(viewBox("@ + points_text(image.x as int) + ","@ + points_text(
        image.y as int,
    ) + ","@ + points_text(image.width as int) + ","@ + points_text(image.height as int)
        + "))\""@
}

/// The middle of the markup of an image: the class of the page and the
/// source text of the fragment.
pub open spec fn names_text(class_name: Seq<char>, alt: Seq<char>) -> Seq<char> {
    "\nclass=\""@ + class_name + "\" alt = \""@ + escaped(alt) + "\""@
}

/// The end of the markup of an image: how large it is and how far it is
/// lowered.
pub open spec fn style_text(image: PositionedImage, baseline_rise: i64) -> Seq<char> {
    "\nstyle=\"width:"@ + points_text(image.width as int) + "pt;height:"@ + points_text(
        image.height as int,
    ) + "pt;\ntop:"@ + points_text(image.baseline_offset - baseline_rise)
        + "pt;position:relative;display:inline;margin-bottom:0pt;\">"@
}

/// The markup of one image: a view into the rendered page of the class
/// `class_name`, as large as the image, lowered by how far the image
/// reaches below the baseline less the rise `baseline_rise`. `alt` is the
/// source text of the fragment.
#[verifier::opaque]
pub open spec fn image_markup_spec(
    image: PositionedImage,
    class_name: Seq<char>,
    alt: Seq<char>,
    baseline_rise: i64,
) -> Seq<char> {
    view_text(image) + names_text(class_name, alt) + style_text(image, baseline_rise)
}

/// Appends the start of the markup of an image.
fn push_view(text: &mut String, image: &PositionedImage)
    ensures
        final(text)@ == old(text)@ + view_text(*image),
{
    let ghost before = text@;
    text.append("<img src=\"#svgView(viewBox(");
    push_points(text, image.x as i128);
    text.append(",");
    push_points(text, image.y as i128);
    let ghost half = text@;
    assert(half =~= before + ("<img src=\"#svgView(viewBox("@ + points_text(image.x as int) + ","@
        + points_text(image.y as int)));
    text.append(",");
    push_points(text, image.width as i128);
    text.append(",");
    push_points(text, image.height as i128);
    text.append("))\"");
    assert(text@ =~= half + (","@ + points_text(image.width as int) + ","@ + points_text(
        image.height as int,
    ) + "))\""@));
    assert(text@ =~= before + view_text(*image));
}

/// Appends the middle of the markup of an image.
fn push_names(text: &mut String, class_name: &str, alt: &str)
    ensures
        final(text)@ == old(text)@ + names_text(class_name@, alt@),
{
    let ghost before = text@;
    text.append("\nclass=\"");
    text.append(class_name);
    text.append("\" alt = \"");
    let alt_text = escape_text(alt);
    text.append(alt_text.as_str());
    text.append("\"");
    assert(text@ =~= before + names_text(class_name@, alt@));
}

/// Appends the end of the markup of an image.
fn push_style(text: &mut String, image: &PositionedImage, baseline_rise: i64)
    ensures
        final(text)@ == old(text)@ + style_text(*image, baseline_rise),
{
    let ghost before = text@;
    text.append("\nstyle=\"width:");
    push_points(text, image.width as i128);
    text.append("pt;height:");
    push_points(text, image.height as i128);
    let ghost half = text@;
    assert(half =~= before + ("\nstyle=\"width:"@ + points_text(image.width as int)
        + "pt;height:"@ + points_text(image.height as int)));
    text.append("pt;\ntop:");
    push_points(text, image.baseline_offset as i128 - baseline_rise as i128);
    text.append("pt;position:relative;display:inline;margin-bottom:0pt;\">");
    assert(text@ =~= half + ("pt;\ntop:"@ + points_text(image.baseline_offset - baseline_rise)
        + "pt;position:relative;display:inline;margin-bottom:0pt;\">"@));
    assert(text@ =~= before + style_text(*image, baseline_rise));
}

/// Appends the markup of one image.
pub fn push_image_markup(
    text: &mut String,
    image: &PositionedImage,
    class_name: &str,
    alt: &str,
    baseline_rise: i64,
)
    ensures
        final(text)@ == old(text)@ + image_markup_spec(*image, class_name@, alt@, baseline_rise),
{
    reveal(image_markup_spec);
    let ghost before = text@;
    push_view(text, image);
    push_names(text, class_name, alt);
    push_style(text, image, baseline_rise);
    assert(text@ =~= before + image_markup_spec(*image, class_name@, alt@, baseline_rise));
}

/// The texts of a list of strings.
pub open spec fn texts_of(strings: Seq<String>) -> Seq<Seq<char>> {
    Seq::new(strings.len(), |i: int| strings[i]@)
}

/// Every image lies on a page that has a class name; pages count from 1.
pub open spec fn pages_named(images: Seq<PositionedImage>, class_names: Seq<Seq<char>>) -> bool {
    forall|i: int| 0 <= i < images.len() ==> 1 <= (#[trigger] images[i]).page <= class_names.len()
}

/// The markup of the images one after the other, with `between` between
/// each two.
pub open spec fn images_markup(
    images: Seq<PositionedImage>,
    class_names: Seq<Seq<char>>,
    alt: Seq<char>,
    baseline_rise: i64,
    between: Seq<char>,
) -> Seq<char>
    decreases images.len(),
{
    if images.len() == 0 {
        Seq::empty()
    } else {
        images_markup(images.drop_last(), class_names, alt, baseline_rise, between) + (if images.len()
            > 1 {
            between
        } else {
            Seq::empty()
        }) + image_markup_spec(
            images.last(),
            class_names[images.last().page - 1],
            alt,
            baseline_rise,
        )
    }
}

/// The markup that stands for a fragment: nothing for a fragment that is
/// not shown; the images of an inline fragment as they are; the images of
/// any other fragment in a centred paragraph, with a line break between each
/// two.
pub open spec fn fragment_markup_spec(
    kind: FragmentType,
    images: Seq<PositionedImage>,
    class_names: Seq<Seq<char>>,
    alt: Seq<char>,
    baseline_rise: i64,
) -> Seq<char> {
    match kind {
        FragmentType::DontShow => Seq::empty(),
        FragmentType::InlineMath => images_markup(
            images,
            class_names,
            alt,
            baseline_rise,
            Seq::empty(),
        ),
        FragmentType::DisplayMath | FragmentType::RawBlock => "<p style=\"text-align:center;\">"@
            + images_markup(images, class_names, alt, baseline_rise, "<br>"@) + "</p>"@,
    }
}

/// Appends the markup of the images, with `between` between each two.
/// Returns whether every image lies on a page that has a class name; if
/// not, what was appended is of no use.
fn push_images_markup(
    text: &mut String,
    images: &Vec<PositionedImage>,
    class_names: &Vec<String>,
    alt: &str,
    baseline_rise: i64,
    between: &str,
) -> (named: bool)
    ensures
        named == pages_named(images@, texts_of(class_names@)),
        named ==> final(text)@ == old(text)@ + images_markup(
            images@,
            texts_of(class_names@),
            alt@,
            baseline_rise,
            between@,
        ),
{
    let mut i: usize = 0;
    while i < images.len()
        invariant
            i <= images.len(),
            pages_named(images@.take(i as int), texts_of(class_names@)),
            text@ == old(text)@ + images_markup(
                images@.take(i as int),
                texts_of(class_names@),
                alt@,
                baseline_rise,
                between@,
            ),
        decreases images.len() - i,
    {
        let image = &images[i];
        if image.page == 0 || image.page as usize > class_names.len() {
            return false;
        }
        let ghost before = text@;
        assert(images@.take(i + 1).drop_last() =~= images@.take(i as int));
        if i > 0 {
            text.append(between);
        }
        push_image_markup(
            text,
            image,
            class_names[(image.page - 1) as usize].as_str(),
            alt,
            baseline_rise,
        );
        assert(text@ =~= old(text)@ + images_markup(
            images@.take(i + 1),
            texts_of(class_names@),
            alt@,
            baseline_rise,
            between@,
        ));
        assert forall|k: int| 0 <= k < i + 1 implies 1 <= (#[trigger] images@.take(i + 1)[k]).page
            <= texts_of(class_names@).len() by {
            if k < i {
                assert(images@.take(i as int)[k] == images@.take(i + 1)[k]);
            }
        }
        i += 1;
    }
    assert(images@.take(i as int) =~= images@);
    true
}

/// The markup that stands for a fragment of the kind `kind` with the source
/// text `alt`, placed as `images` say. `class_names` holds the class of
/// every rendered page, the first page first. Returns `None` if an image
/// lies on a page without a class name.
pub fn fragment_markup(
    kind: FragmentType,
    images: &Vec<PositionedImage>,
    class_names: &Vec<String>,
    alt: &str,
    baseline_rise: i64,
) -> (markup: Option<String>)
    ensures
        match markup {
            Some(text) => text@ == fragment_markup_spec(
                kind,
                images@,
                texts_of(class_names@),
                alt@,
                baseline_rise,
            ) && (kind == FragmentType::DontShow || pages_named(images@, texts_of(class_names@))),
            None => kind != FragmentType::DontShow && !pages_named(
                images@,
                texts_of(class_names@),
            ),
        },
{
    let mut text = String::new();
    match kind {
        FragmentType::DontShow => Some(text),
        FragmentType::InlineMath => {
            proof {
                reveal_strlit("");
            }
            let named = push_images_markup(&mut text, images, class_names, alt, baseline_rise, "");
            assert(""@ =~= Seq::<char>::empty());
            if named {
                assert(text@ =~= fragment_markup_spec(
                    kind,
                    images@,
                    texts_of(class_names@),
                    alt@,
                    baseline_rise,
                ));
                Some(text)
            } else {
                None
            }
        },
        FragmentType::DisplayMath | FragmentType::RawBlock => {
            text.append("<p style=\"text-align:center;\">");
            let named = push_images_markup(
                &mut text,
                images,
                class_names,
                alt,
                baseline_rise,
                "<br>",
            );
            if named {
                text.append("</p>");
                assert(text@ =~= fragment_markup_spec(
                    kind,
                    images@,
                    texts_of(class_names@),
                    alt@,
                    baseline_rise,
                ));
                Some(text)
            } else {
                None
            }
        },
    }
}

} // verus!
